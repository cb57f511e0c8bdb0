//! The pagination stage: the flat sequence of display lines is grouped into
//! pages of 14 lines (the final page may hold fewer), and each page's lines
//! are joined with newline separators. A full page carries no newline after
//! its 14th line; a shorter final page keeps a newline after every line.

use vstd::prelude::*;

use crate::views;

verus! {

/// The given lines, each followed by one newline.
pub open spec fn lines_nl(ls: Seq<Seq<char>>) -> Seq<char>
    decreases ls.len(),
{
    if ls.len() == 0 {
        Seq::<char>::empty()
    } else {
        ls.first() + seq!['\n'] + lines_nl(ls.drop_first())
    }
}

pub proof fn lemma_lines_nl_push(ls: Seq<Seq<char>>, x: Seq<char>)
    ensures
        lines_nl(ls.push(x)) == lines_nl(ls) + x + seq!['\n'],
    decreases ls.len(),
{
    if ls.len() == 0 {
        assert(ls.push(x).first() == x);
        assert(ls.push(x).drop_first() =~= Seq::<Seq<char>>::empty());
        assert(lines_nl(ls.push(x)) == x + seq!['\n'] + lines_nl(Seq::<Seq<char>>::empty()));
        assert(lines_nl(ls.push(x)) =~= lines_nl(ls) + x + seq!['\n']);
    } else {
        assert(ls.push(x).drop_first() =~= ls.drop_first().push(x));
        lemma_lines_nl_push(ls.drop_first(), x);
        assert(lines_nl(ls.push(x)) =~= lines_nl(ls) + x + seq!['\n']);
    }
}

/// The joined content of one page. A full page of 14 lines puts a newline
/// between lines but none after the last; a page of fewer lines (only the
/// final page) keeps a newline after every line.
pub open spec fn join_page(ls: Seq<Seq<char>>) -> Seq<char> {
    if ls.len() == 14 {
        lines_nl(ls.take(13)) + ls[13]
    } else {
        lines_nl(ls)
    }
}

/// The pages of a line sequence: consecutive groups of 14 lines, the final
/// page holding whatever remains. An empty line sequence yields no pages.
pub open spec fn paginate_from(ls: Seq<Seq<char>>) -> Seq<Seq<char>>
    decreases ls.len(),
{
    if ls.len() == 0 {
        Seq::<Seq<char>>::empty()
    } else if ls.len() <= 14 {
        seq![join_page(ls)]
    } else {
        seq![join_page(ls.take(14))] + paginate_from(ls.skip(14))
    }
}

/// With at least 14 lines ahead, the first 14 become one full page.
pub proof fn lemma_paginate_step(ls: Seq<Seq<char>>)
    requires
        ls.len() >= 14,
    ensures
        paginate_from(ls) == seq![join_page(ls.take(14))] + paginate_from(ls.skip(14)),
{
    if ls.len() == 14 {
        assert(ls.take(14) =~= ls);
        assert(ls.skip(14) =~= Seq::<Seq<char>>::empty());
        assert(seq![join_page(ls)] =~= seq![join_page(ls.take(14))] + paginate_from(
            ls.skip(14),
        ));
    }
}

/// Shape of the pagination: the pages cut the line sequence into consecutive
/// groups, every page except the last being the join of exactly 14 lines,
/// and the last the join of what remains (between 1 and 14 lines).
pub proof fn lemma_pages_shape(ls: Seq<Seq<char>>)
    ensures
        ls.len() == 0 ==> paginate_from(ls).len() == 0,
        ls.len() > 0 ==> 14 * (paginate_from(ls).len() - 1) < ls.len() <= 14 * paginate_from(
            ls,
        ).len(),
        forall|p: int|
            0 <= p < paginate_from(ls).len() - 1 ==> #[trigger] paginate_from(ls)[p] == join_page(
                ls.subrange(14 * p, 14 * p + 14),
            ),
        paginate_from(ls).len() > 0 ==> paginate_from(ls).last() == join_page(
            ls.subrange(14 * (paginate_from(ls).len() - 1), ls.len() as int),
        ),
    decreases ls.len(),
{
    if ls.len() == 0 {
    } else if ls.len() <= 14 {
        assert(ls.subrange(0, ls.len() as int) =~= ls);
    } else {
        lemma_pages_shape(ls.skip(14));
        let r = paginate_from(ls.skip(14));
        let pg = paginate_from(ls);
        assert(ls.take(14) =~= ls.subrange(0, 14));
        assert forall|p: int| 0 <= p < pg.len() - 1 implies #[trigger] pg[p] == join_page(
            ls.subrange(14 * p, 14 * p + 14),
        ) by {
            if p == 0 {
                assert(pg[0] == join_page(ls.take(14)));
            } else {
                assert(pg[p] == r[p - 1]);
                assert(r[p - 1] == join_page(ls.skip(14).subrange(14 * (p - 1), 14 * (p - 1)
                    + 14)));
                assert(ls.skip(14).subrange(14 * (p - 1), 14 * (p - 1) + 14) =~= ls.subrange(
                    14 * p,
                    14 * p + 14,
                ));
            }
        }
        assert(pg.last() == r.last());
        assert(ls.skip(14).subrange(14 * (r.len() - 1), ls.skip(14).len() as int) =~= ls.subrange(
            14 * (pg.len() - 1),
            ls.len() as int,
        ));
    }
}

/// Groups the display lines into pages of 14 joined lines, the final page
/// holding the remainder; no lines means no pages.
pub fn paginate(lines: &Vec<String>) -> (pages: Vec<String>)
    ensures
        views(pages@) == paginate_from(views(lines@)),
{
    let ghost lv = views(lines@);
    let mut pages: Vec<String> = Vec::new();
    let mut page: String = String::new();
    let mut slot: usize = 0;
    let mut i: usize = 0;
    proof {
        assert(lv.skip(0) =~= lv);
        assert(views(pages@) =~= Seq::<Seq<char>>::empty());
        assert(views(pages@) + paginate_from(lv) =~= paginate_from(lv));
        assert(lv.subrange(0, 0) =~= Seq::<Seq<char>>::empty());
    }
    while i < lines.len()
        invariant
            lv == views(lines@),
            i <= lv.len(),
            slot <= 13,
            slot <= i,
            views(pages@) + paginate_from(lv.skip(i - slot)) == paginate_from(lv),
            page@ == lines_nl(lv.subrange(i - slot, i as int)),
        decreases lv.len() - i,
    {
        let ghost g = i - slot;
        proof {
            assert(lv[i as int] == lines@[i as int]@);
        }
        page.append(lines[i].as_str());
        if slot == 13 {
            proof {
                lemma_paginate_step(lv.skip(g));
                assert(lv.skip(g).take(14) =~= lv.subrange(g, g + 14));
                assert(lv.subrange(g, g + 14).take(13) =~= lv.subrange(g, i as int));
                assert(lv.subrange(g, g + 14)[13] == lv[i as int]);
                assert(page@ == join_page(lv.subrange(g, g + 14)));
                assert(lv.skip(g).skip(14) =~= lv.skip(i + 1));
                assert(views(pages@.push(page)) =~= views(pages@).push(page@));
                assert(views(pages@).push(page@) + paginate_from(lv.skip(i + 1)) =~= views(
                    pages@,
                ) + (seq![join_page(lv.skip(g).take(14))] + paginate_from(lv.skip(g).skip(14))));
                assert(lv.subrange(i + 1, i + 1) =~= Seq::<Seq<char>>::empty());
            }
            pages.push(page);
            page = String::new();
            slot = 0;
        } else {
            proof {
                reveal_strlit("\n");
            }
            page.append("\n");
            proof {
                lemma_lines_nl_push(lv.subrange(g, i as int), lv[i as int]);
                assert(lv.subrange(g, i as int).push(lv[i as int]) =~= lv.subrange(g, i + 1));
                assert(page@ == lines_nl(lv.subrange(g, i + 1)));
            }
            slot = slot + 1;
        }
        i = i + 1;
    }
    if slot > 0 {
        proof {
            let g = i - slot;
            assert(lv.subrange(g, i as int) =~= lv.skip(g));
            assert(lv.skip(g).len() == slot);
            assert(paginate_from(lv.skip(g)) == seq![join_page(lv.skip(g))]);
            assert(views(pages@.push(page)) =~= views(pages@).push(page@));
            assert(views(pages@).push(page@) + Seq::<Seq<char>>::empty() =~= views(pages@) + seq![
                page@
            ]);
        }
        pages.push(page);
        proof {
            assert(views(pages@) =~= paginate_from(lv));
        }
    } else {
        proof {
            assert(lv.skip(i - slot) =~= Seq::<Seq<char>>::empty());
            assert(views(pages@) + paginate_from(Seq::<Seq<char>>::empty()) =~= views(pages@));
        }
    }
    pages
}

} // verus!

//! The serialization stage: the finished pages rendered into one output
//! string, either the human-readable layout with page banners or the
//! Stendhal book-data dialect with title, author and page list.

use vstd::prelude::*;

use crate::views;

verus! {

/// The decimal digit characters.
pub open spec fn dec_digit(d: nat) -> char {
    if d == 0 {
        '0'
    } else if d == 1 {
        '1'
    } else if d == 2 {
        '2'
    } else if d == 3 {
        '3'
    } else if d == 4 {
        '4'
    } else if d == 5 {
        '5'
    } else if d == 6 {
        '6'
    } else if d == 7 {
        '7'
    } else if d == 8 {
        '8'
    } else {
        '9'
    }
}

/// The usual decimal notation of a number, most significant digit first and
/// without leading zeros (zero itself is "0").
pub open spec fn dec_str(n: nat) -> Seq<char>
    decreases n,
{
    if n < 10 {
        seq![dec_digit(n)]
    } else {
        dec_str(n / 10).push(dec_digit(n % 10))
    }
}

/// One decimal digit as a string slice.
fn digit_str(d: u64) -> (s: &'static str)
    requires
        d < 10,
    ensures
        s@ == seq![dec_digit(d as nat)],
{
    proof {
        reveal_strlit("0");
        reveal_strlit("1");
        reveal_strlit("2");
        reveal_strlit("3");
        reveal_strlit("4");
        reveal_strlit("5");
        reveal_strlit("6");
        reveal_strlit("7");
        reveal_strlit("8");
        reveal_strlit("9");
    }
    match d {
        0 => "0",
        1 => "1",
        2 => "2",
        3 => "3",
        4 => "4",
        5 => "5",
        6 => "6",
        7 => "7",
        8 => "8",
        _ => "9",
    }
}

/// The decimal notation of a number.
pub fn u64_to_string(n: u64) -> (s: String)
    ensures
        s@ == dec_str(n as nat),
    decreases n,
{
    if n < 10 {
        digit_str(n).to_owned()
    } else {
        let mut s = u64_to_string(n / 10);
        s.append(digit_str(n % 10));
        proof {
            assert(dec_str((n / 10) as nat) + seq![dec_digit((n % 10) as nat)] =~= dec_str(
                (n / 10) as nat,
            ).push(dec_digit((n % 10) as nat)));
        }
        s
    }
}

/// The human-readable rendering of one page: a banner with its 1-based
/// number, the page content, and a closing banner.
pub open spec fn readable_entry(idx: nat, p: Seq<char>) -> Seq<char> {
    "--- Page "@ + dec_str(idx + 1) + " ---\n"@ + p + "\n"@ + "--- End Page "@ + dec_str(idx + 1)
        + " ---\n"@
}

pub open spec fn readable_from(pages: Seq<Seq<char>>, idx: nat) -> Seq<char>
    decreases pages.len(),
{
    if pages.len() == 0 {
        Seq::<char>::empty()
    } else {
        readable_entry(idx, pages.first()) + readable_from(pages.drop_first(), idx + 1)
    }
}

/// The whole human-readable output: every page between its banners, in
/// order.
pub open spec fn readable_spec(pages: Seq<Seq<char>>) -> Seq<char> {
    readable_from(pages, 0)
}

/// Renders the pages in the human-readable layout: each page between a
/// `--- Page N ---` and a `--- End Page N ---` banner, pages 1-indexed.
pub fn output_readable(pages: Vec<String>) -> (r: String)
    ensures
        r@ == readable_spec(views(pages@)),
{
    let ghost pv = views(pages@);
    let mut r = String::new();
    let mut i: usize = 0;
    proof {
        assert(pv.skip(0) =~= pv);
        assert(r@ + readable_from(pv, 0) =~= readable_from(pv, 0));
    }
    while i < pages.len()
        invariant
            pv == views(pages@),
            i <= pv.len(),
            r@ + readable_from(pv.skip(i as int), i as nat) == readable_spec(pv),
        decreases pv.len() - i,
    {
        let ghost prev = r@;
        let num = u64_to_string((i as u64) + 1);
        r.append("--- Page ");
        r.append(num.as_str());
        r.append(" ---\n");
        r.append(pages[i].as_str());
        r.append("\n");
        r.append("--- End Page ");
        r.append(num.as_str());
        r.append(" ---\n");
        proof {
            assert(pv.skip(i as int).first() == pv[i as int]);
            assert(pv.skip(i as int).drop_first() =~= pv.skip(i + 1));
            assert(pv[i as int] == pages@[i as int]@);
            assert(r@ =~= prev + readable_entry(i as nat, pv[i as int]));
        }
        i = i + 1;
    }
    proof {
        assert(pv.skip(i as int) =~= Seq::<Seq<char>>::empty());
        assert(r@ + Seq::<char>::empty() =~= r@);
    }
    r
}

/// The Stendhal book-data rendering: a title line, an author line, a
/// `pages:` line, then every page behind a `#- ` marker.
pub open spec fn stendhal_pages(pages: Seq<Seq<char>>) -> Seq<char>
    decreases pages.len(),
{
    if pages.len() == 0 {
        Seq::<char>::empty()
    } else {
        "#- "@ + pages.first() + "\n"@ + stendhal_pages(pages.drop_first())
    }
}

pub open spec fn stendhal_spec(title: Seq<char>, author: Seq<char>, pages: Seq<Seq<char>>) -> Seq<
    char,
> {
    "title: "@ + title + "\n"@ + "author: "@ + author + "\n"@ + "pages:\n"@ + stendhal_pages(pages)
}

/// Renders the book in the Stendhal dialect: `title:`, `author:` and
/// `pages:` headers, then one `#- ` entry per page.
pub fn output_stendhal(title: &str, author: &str, pages: Vec<String>) -> (r: String)
    ensures
        r@ == stendhal_spec(title@, author@, views(pages@)),
{
    let ghost pv = views(pages@);
    let mut r = String::new();
    r.append("title: ");
    r.append(title);
    r.append("\n");
    r.append("author: ");
    r.append(author);
    r.append("\n");
    r.append("pages:\n");
    let ghost head = r@;
    let mut i: usize = 0;
    proof {
        assert(pv.skip(0) =~= pv);
        assert(head + stendhal_pages(pv) =~= stendhal_spec(title@, author@, pv));
    }
    while i < pages.len()
        invariant
            pv == views(pages@),
            i <= pv.len(),
            r@ + stendhal_pages(pv.skip(i as int)) == stendhal_spec(title@, author@, pv),
        decreases pv.len() - i,
    {
        let ghost prev = r@;
        r.append("#- ");
        r.append(pages[i].as_str());
        r.append("\n");
        proof {
            assert(pv.skip(i as int).first() == pv[i as int]);
            assert(pv.skip(i as int).drop_first() =~= pv.skip(i + 1));
            assert(pv[i as int] == pages@[i as int]@);
            assert(r@ =~= prev + ("#- "@ + pv[i as int] + "\n"@));
        }
        i = i + 1;
    }
    proof {
        assert(pv.skip(i as int) =~= Seq::<Seq<char>>::empty());
        assert(r@ + Seq::<char>::empty() =~= r@);
    }
    r
}

} // verus!

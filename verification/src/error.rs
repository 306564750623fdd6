//! What can go wrong while a graph is built or a package is picked.

use crate::package::PackageId;
use vstd::prelude::*;
use vstd::string::StringExecFns;

verus! {

/// Why an operation gave no result. A failure while a graph is built ends
/// the whole build: a graph with a package missing is of no use to what
/// reads it.
#[derive(Debug, PartialEq, Eq)]
pub enum Error {
    /// The resolution names a package that the package set does not know.
    MetadataNotFound(PackageId),
    /// The contents of a package could not be fetched.
    FetchFailed(PackageId),
    /// A line of a compiler's configuration report is no configuration
    /// value. The line is kept.
    InvalidCfg(String),
    /// More than one dependency answers to a selection. The versions of
    /// those that do are kept, in the order in which they were met.
    AmbiguousSelection(Vec<String>),
    /// No package answers to a selection. `unrelated` says whether packages
    /// other than the project's dependencies were looked at.
    CrateNotFound { unrelated: bool },
}

/// The digit for `d`, which is below ten.
pub open spec fn digit(d: nat) -> char {
    if d == 0 {
        '0'
    } else if d == 1 {
        '1'
    } else if d == 2 {
        '2'
    } else if d == 3 {
        '3'
    } else if d == 4 {
        '4'
    } else if d == 5 {
        '5'
    } else if d == 6 {
        '6'
    } else if d == 7 {
        '7'
    } else if d == 8 {
        '8'
    } else {
        '9'
    }
}

/// `n` in decimal digits, without leading zeros.
pub open spec fn decimal(n: nat) -> Seq<char>
    decreases n,
{
    if n < 10 {
        seq![digit(n)]
    } else {
        decimal(n / 10).push(digit(n % 10))
    }
}

/// The texts `parts`, one after the other, with `sep` between each two.
pub open spec fn joined(parts: Seq<Seq<char>>, sep: Seq<char>) -> Seq<char>
    decreases parts.len(),
{
    if parts.len() == 0 {
        Seq::empty()
    } else if parts.len() == 1 {
        parts[0]
    } else {
        joined(parts.drop_last(), sep) + sep + parts.last()
    }
}

/// What tells the user that a selection is ambiguous: how many packages
/// answer to it, and their versions.
pub open spec fn ambiguity(versions: Seq<Seq<char>>) -> Seq<char> {
    "Ambiguous selection: "@ + decimal(versions.len()) + " matches found: "@ + joined(
        versions,
        ", "@,
    )
}

/// Appends `n` in decimal digits to `out`.
fn push_decimal(out: &mut String, n: usize)
    ensures
        final(out)@ == old(out)@ + decimal(n as nat),
    decreases n,
{
    let ghost start = out@;
    if n >= 10 {
        push_decimal(out, n / 10);
    }
    let ghost front = out@;
    let d = n % 10;
    let text = if d == 0 {
        "0"
    } else if d == 1 {
        "1"
    } else if d == 2 {
        "2"
    } else if d == 3 {
        "3"
    } else if d == 4 {
        "4"
    } else if d == 5 {
        "5"
    } else if d == 6 {
        "6"
    } else if d == 7 {
        "7"
    } else if d == 8 {
        "8"
    } else {
        "9"
    };
    proof {
        reveal_strlit("0");
        reveal_strlit("1");
        reveal_strlit("2");
        reveal_strlit("3");
        reveal_strlit("4");
        reveal_strlit("5");
        reveal_strlit("6");
        reveal_strlit("7");
        reveal_strlit("8");
        reveal_strlit("9");
        assert(text@ =~= seq![digit(d as nat)]);
    }
    out.append(text);
    assert(out@ =~= front + seq![digit(d as nat)]);
    assert(out@ =~= start + decimal(n as nat));
}

impl Error {
    /// What to tell the user whose selection is ambiguous, given the
    /// versions of the packages that answer to it.
    pub fn ambiguous_selection_text(versions: &Vec<String>) -> (res: String)
        ensures
            res@ == ambiguity(versions.deep_view()),
    {
        let ghost texts = versions.deep_view();
        let mut out = String::new();
        out.append("Ambiguous selection: ");
        push_decimal(&mut out, versions.len());
        out.append(" matches found: ");
        let ghost head = out@;
        assert(head =~= "Ambiguous selection: "@ + decimal(versions.len() as nat)
            + " matches found: "@);
        let mut i: usize = 0;
        assert(texts.take(0) =~= Seq::<Seq<char>>::empty());
        assert(out@ =~= head + joined(texts.take(0), ", "@));
        while i < versions.len()
            invariant
                i <= versions.len(),
                texts == versions.deep_view(),
                out@ == head + joined(texts.take(i as int), ", "@),
            decreases versions.len() - i,
        {
            let ghost before = joined(texts.take(i as int), ", "@);
            if i > 0 {
                out.append(", ");
            }
            out.append(versions[i].as_str());
            proof {
                assert(texts.take(i + 1).drop_last() =~= texts.take(i as int));
                assert(texts.take(i + 1).last() == versions[i as int]@);
                if i == 0 {
                    assert(before =~= Seq::<char>::empty());
                    assert(texts.take(1)[0] == versions[0]@);
                }
                assert(out@ =~= head + joined(texts.take(i + 1), ", "@));
            }
            i = i + 1;
        }
        assert(texts.take(versions@.len() as int) =~= texts);
        out
    }

    /// What to tell the user who asked for a package that was not found.
    pub fn not_found_hint(unrelated: bool) -> (res: &'static str)
        ensures
            res@ == if unrelated {
                "Could not find requested crate. Try updating cargo's registry index cache?"@
            } else {
                "Could not find requested crate. Try `-u` if the crate is not a dependency."@
            },
    {
        if unrelated {
            "Could not find requested crate. Try updating cargo's registry index cache?"
        } else {
            "Could not find requested crate. Try `-u` if the crate is not a dependency."
        }
    }
}

} // verus!

//! Text layout for the dependency table printed on a plain terminal.

use vstd::prelude::*;
use vstd::string::StrSliceExecFns;
use vstd::string::StringExecFns;
use vstd::utf8::encode_utf8;

verus! {

/// `n` blanks.
pub open spec fn blanks(n: nat) -> Seq<char> {
    Seq::new(n, |i: int| ' ')
}

/// The text of a cell `width` bytes wide that holds `s` flush left: `s`
/// followed by as many blanks as it takes to fill the cell, or `s` alone
/// where it is already wider than the cell. Widths count bytes of UTF-8.
pub open spec fn padded(s: Seq<char>, byte_len: nat, width: nat) -> Seq<char> {
    if byte_len <= width {
        s + blanks((width - byte_len) as nat)
    } else {
        s
    }
}

/// Pads `s` with blanks on the right up to `width` bytes.
pub fn pad_left_manually(s: String, width: usize) -> (res: String)
    ensures
        res@ == padded(s@, encode_utf8(s@).len(), width as nat),
{
    let len: usize = s.as_str().as_bytes().len();
    if len <= width {
        let ghost orig = s@;
        let mut res = s;
        let mut filled: usize = len;
        assert(res@ =~= orig + blanks(0));
        while filled < width
            invariant
                len <= filled <= width,
                res@ == orig + blanks((filled - len) as nat),
            decreases width - filled,
        {
            proof {
                reveal_strlit(" ");
            }
            res.append(" ");
            filled = filled + 1;
            assert(res@ =~= orig + blanks((filled - len) as nat));
        }
        assert(res@ == padded(orig, len as nat, width as nat));
        res
    } else {
        s
    }
}

/// `s` flush left in a column `width` characters wide: `s` alone where it
/// is as wide or wider.
pub open spec fn flush_left(s: Seq<char>, width: nat) -> Seq<char> {
    if s.len() < width {
        s + blanks((width - s.len()) as nat)
    } else {
        s
    }
}

/// `s` flush right in a column `width` characters wide: `s` alone where it
/// is as wide or wider.
pub open spec fn flush_right(s: Seq<char>, width: nat) -> Seq<char> {
    if s.len() < width {
        blanks((width - s.len()) as nat) + s
    } else {
        s
    }
}

/// `s` in the middle of a column `width` characters wide, with the odd
/// blank on the right: `s` alone where it is as wide or wider.
pub open spec fn centred(s: Seq<char>, width: nat) -> Seq<char> {
    if s.len() < width {
        blanks(((width - s.len()) / 2) as nat) + s + blanks(
            ((width - s.len()) - (width - s.len()) / 2) as nat,
        )
    } else {
        s
    }
}

/// Appends `n` blanks to `out`.
fn push_blanks(out: &mut String, n: usize)
    ensures
        final(out)@ == old(out)@ + blanks(n as nat),
{
    let ghost start = out@;
    let mut done: usize = 0;
    assert(out@ =~= start + blanks(0));
    while done < n
        invariant
            done <= n,
            out@ == start + blanks(done as nat),
        decreases n - done,
    {
        proof {
            reveal_strlit(" ");
        }
        out.append(" ");
        done = done + 1;
        assert(out@ =~= start + blanks(done as nat));
    }
}

/// Appends `s`, flush left in a column of `width` characters, to `out`.
fn push_left(out: &mut String, s: &str, width: usize)
    ensures
        final(out)@ == old(out)@ + flush_left(s@, width as nat),
{
    let ghost start = out@;
    let len = s.unicode_len();
    out.append(s);
    if len < width {
        push_blanks(out, width - len);
    }
    assert(out@ =~= start + flush_left(s@, width as nat));
}

/// Appends `s`, flush right in a column of `width` characters, to `out`.
fn push_right(out: &mut String, s: &str, width: usize)
    ensures
        final(out)@ == old(out)@ + flush_right(s@, width as nat),
{
    let ghost start = out@;
    let len = s.unicode_len();
    if len < width {
        push_blanks(out, width - len);
    }
    out.append(s);
    assert(out@ =~= start + flush_right(s@, width as nat));
}

/// Appends `s`, in the middle of a column of `width` characters, to `out`.
fn push_centred(out: &mut String, s: &str, width: usize)
    ensures
        final(out)@ == old(out)@ + centred(s@, width as nat),
{
    let ghost start = out@;
    let len = s.unicode_len();
    if len < width {
        let left = (width - len) / 2;
        push_blanks(out, left);
        out.append(s);
        push_blanks(out, width - len - left);
    } else {
        out.append(s);
    }
    assert(out@ =~= start + centred(s@, width as nat));
}

/// Which columns the dependency table shows.
#[derive(Clone, Copy, Debug, PartialEq, Eq, Structural)]
pub struct CrateVerifyColumns {
    pub show_digest: bool,
    pub show_reviews: bool,
    pub show_downloads: bool,
    pub show_owners: bool,
    pub show_issues: bool,
    pub show_loc: bool,
    pub show_geiger: bool,
    pub show_flags: bool,
    pub show_leftpad_index: bool,
    pub show_latest_trusted: bool,
}

/// The text of a column's head where the column is shown: the head,
/// followed by one blank.
pub open spec fn head(shown: bool, cell: Seq<char>) -> Seq<char> {
    if shown {
        cell + seq![' ']
    } else {
        Seq::empty()
    }
}

/// The head of the dependency table: the heads of the columns that are
/// shown, in their order, each followed by a blank, and a line end. The
/// status, the crate and its version are always shown. The head of the
/// latest trusted version stands on a line of its own.
pub open spec fn header(columns: CrateVerifyColumns) -> Seq<char> {
    head(columns.show_digest, flush_left("digest"@, 43)) + head(true, flush_right("status"@, 6))
        + head(columns.show_reviews, flush_right("reviews"@, 7)) + head(
        columns.show_downloads,
        centred("downloads"@, 18),
    ) + head(columns.show_owners, flush_right("owner"@, 6)) + head(
        columns.show_issues,
        flush_right("issues"@, 6),
    ) + head(columns.show_loc, flush_right("loc"@, 6)) + head(
        columns.show_geiger,
        flush_right("geiger"@, 6),
    ) + head(columns.show_flags, flush_right("flgs"@, 4)) + head(
        columns.show_leftpad_index,
        flush_right("lpidx"@, 5),
    ) + head(true, flush_left("crate"@, 20)) + head(true, flush_left("version"@, 15)) + seq!['\n']
        + if columns.show_latest_trusted {
        flush_left("latest_t"@, 15) + seq!['\n']
    } else {
        Seq::empty()
    }
}

/// Appends the head of a column to `out`, where the column is shown.
fn push_head(out: &mut String, shown: bool, title: &str, width: usize, right: bool)
    ensures
        final(out)@ == old(out)@ + head(
            shown,
            if right {
                flush_right(title@, width as nat)
            } else {
                flush_left(title@, width as nat)
            },
        ),
{
    let ghost start = out@;
    if shown {
        if right {
            push_right(out, title, width);
        } else {
            push_left(out, title, width);
        }
        proof {
            reveal_strlit(" ");
        }
        let ghost cell = out@;
        out.append(" ");
        assert(out@ =~= cell + seq![' ']);
    }
    assert(out@ =~= start + head(
        shown,
        if right {
            flush_right(title@, width as nat)
        } else {
            flush_left(title@, width as nat)
        },
    ));
}

/// The text of the head of the dependency table. See [`header`].
pub fn header_text(columns: &CrateVerifyColumns) -> (res: String)
    ensures
        res@ == header(*columns),
{
    let mut out = String::new();
    assert(out@ =~= Seq::<char>::empty());
    push_head(&mut out, columns.show_digest, "digest", 43, false);
    push_head(&mut out, true, "status", 6, true);
    push_head(&mut out, columns.show_reviews, "reviews", 7, true);
    let ghost before = out@;
    if columns.show_downloads {
        push_centred(&mut out, "downloads", 18);
        proof {
            reveal_strlit(" ");
        }
        let ghost cell = out@;
        out.append(" ");
        assert(out@ =~= cell + seq![' ']);
    }
    assert(out@ =~= before + head(columns.show_downloads, centred("downloads"@, 18)));
    push_head(&mut out, columns.show_owners, "owner", 6, true);
    push_head(&mut out, columns.show_issues, "issues", 6, true);
    push_head(&mut out, columns.show_loc, "loc", 6, true);
    push_head(&mut out, columns.show_geiger, "geiger", 6, true);
    push_head(&mut out, columns.show_flags, "flgs", 4, true);
    push_head(&mut out, columns.show_leftpad_index, "lpidx", 5, true);
    push_head(&mut out, true, "crate", 20, false);
    push_head(&mut out, true, "version", 15, false);
    proof {
        reveal_strlit("\n");
    }
    let ghost line = out@;
    out.append("\n");
    assert(out@ =~= line + seq!['\n']);
    let ghost first = out@;
    if columns.show_latest_trusted {
        push_left(&mut out, "latest_t", 15);
        let ghost cell = out@;
        out.append("\n");
        assert(out@ =~= cell + seq!['\n']);
        assert(out@ =~= first + (flush_left("latest_t"@, 15) + seq!['\n']));
    } else {
        assert(out@ =~= first + Seq::<char>::empty());
    }
    out
}

/// The version as the table shows it: marked with a star where the package
/// does not come from a registry.
pub open spec fn marked_version(version: Seq<char>, is_registry: bool) -> Seq<char> {
    if is_registry {
        version
    } else {
        version + seq!['*']
    }
}

/// The cells that name a package: its name flush left in 20 characters, a
/// blank, and its marked version flush left in 15, both by bytes and by
/// characters.
pub open spec fn crate_id_cells(name: Seq<char>, version: Seq<char>, is_registry: bool) -> Seq<
    char,
> {
    let marked = marked_version(version, is_registry);
    flush_left(name, 20) + seq![' '] + flush_left(
        padded(marked, encode_utf8(marked).len(), 15),
        15,
    )
}

/// The text of the cells that name a package. See [`crate_id_cells`].
pub fn crate_id_text(name: &str, version: &str, is_registry: bool) -> (res: String)
    ensures
        res@ == crate_id_cells(name@, version@, is_registry),
{
    let mut marked = version.to_owned();
    if !is_registry {
        proof {
            reveal_strlit("*");
        }
        marked.append("*");
        assert(marked@ =~= version@ + seq!['*']);
    }
    let cell = pad_left_manually(marked, 15);
    let mut out = String::new();
    assert(out@ =~= Seq::<char>::empty());
    push_left(&mut out, name, 20);
    proof {
        reveal_strlit(" ");
    }
    let ghost named = out@;
    out.append(" ");
    assert(out@ =~= named + seq![' ']);
    push_left(&mut out, cell.as_str(), 15);
    assert(out@ =~= crate_id_cells(name@, version@, is_registry));
    out
}

/// A colour that draws the eye to a cell of the table.
#[derive(Clone, Copy, Debug, PartialEq, Eq, Structural)]
pub enum Highlight {
    Red,
    Yellow,
    Green,
}

/// What the trust in a package comes to.
#[derive(Clone, Copy, Debug, PartialEq, Eq, Structural)]
pub enum VerificationStatus {
    /// Enough trusted sources vouch for the package.
    Verified,
    /// Too few do.
    Insufficient,
    /// A trusted source warns of it.
    Negative,
}

/// How the status of a package is shown: in green where it is verified, in
/// yellow where a trusted source warns of it, and plain otherwise.
pub fn status_highlight(status: VerificationStatus) -> (res: Option<Highlight>)
    ensures
        res == match status {
            VerificationStatus::Verified => Some(Highlight::Green),
            VerificationStatus::Insufficient => None::<Highlight>,
            VerificationStatus::Negative => Some(Highlight::Yellow),
        },
{
    match status {
        VerificationStatus::Verified => Some(Highlight::Green),
        VerificationStatus::Insufficient => None,
        VerificationStatus::Negative => Some(Highlight::Yellow),
    }
}

/// How the number of known owners of a package is shown: in green where
/// there is one.
pub fn known_owners_highlight(count: u64) -> (res: Option<Highlight>)
    ensures
        res == if count > 0 {
            Some(Highlight::Green)
        } else {
            None
        },
{
    if count > 0 {
        Some(Highlight::Green)
    } else {
        None
    }
}

/// How the number of downloads of one version is shown: in yellow where
/// there are fewer than 1000.
pub fn version_downloads_highlight(downloads: u64) -> (res: Option<Highlight>)
    ensures
        res == if downloads < 1000 {
            Some(Highlight::Yellow)
        } else {
            None
        },
{
    if downloads < 1000 {
        Some(Highlight::Yellow)
    } else {
        None
    }
}

/// How the number of downloads of all versions is shown: in yellow where
/// there are fewer than 10000.
pub fn total_downloads_highlight(downloads: u64) -> (res: Option<Highlight>)
    ensures
        res == if downloads < 10000 {
            Some(Highlight::Yellow)
        } else {
            None
        },
{
    if downloads < 10000 {
        Some(Highlight::Yellow)
    } else {
        None
    }
}

/// How the number of issues reported by trusted sources is shown: in
/// red where there is one.
pub fn trusted_issues_highlight(count: u64) -> (res: Option<Highlight>)
    ensures
        res == if count > 0 {
            Some(Highlight::Red)
        } else {
            None
        },
{
    if count > 0 {
        Some(Highlight::Red)
    } else {
        None
    }
}

/// How the number of all reported issues is shown: in yellow where there
/// is one.
pub fn all_issues_highlight(total: u64) -> (res: Option<Highlight>)
    ensures
        res == if total > 0 {
            Some(Highlight::Yellow)
        } else {
            None
        },
{
    if total > 0 {
        Some(Highlight::Yellow)
    } else {
        None
    }
}

} // verus!

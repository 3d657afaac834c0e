//! The date-keyed layout convention: a date `YYYY-MM-DD` names the file
//! `root/YYYY/MM/YYYY-MM-DD.json`.

use vstd::prelude::*;
use vstd::string::*;
use crate::outcome::DateError;
use crate::path::{is_descendant_of, is_storage_root};

verus! {

pub open spec fn is_ascii_digit(c: char) -> bool {
    '0' <= c && c <= '9'
}

/// A well-formed date key: exactly `YYYY-MM-DD`, so that splitting on `-`
/// yields precisely the year, month and day, all numeric.
pub open spec fn valid_date_key(s: Seq<char>) -> bool {
    &&& s.len() == 10
    &&& s[4] == '-'
    &&& s[7] == '-'
    &&& forall|i: int| 0 <= i < 10 && i != 4 && i != 7 ==> is_ascii_digit(#[trigger] s[i])
}

/// The document location a date key is laid out at:
/// `root/YYYY/MM/YYYY-MM-DD.json`.
pub open spec fn spec_locate(root: Seq<char>, date: Seq<char>) -> Seq<char> {
    root + seq!['/'] + date.take(4) + seq!['/'] + date.subrange(5, 7) + seq!['/'] + date + seq![
        '.',
        'j',
        's',
        'o',
        'n',
    ]
}

/// Whether `date` has the `YYYY-MM-DD` shape the layout accepts.
pub fn check_date_key(date: &str) -> (b: bool)
    ensures
        b == valid_date_key(date@),
{
    let n = date.unicode_len();
    if n != 10 {
        return false;
    }
    let mut i: usize = 0;
    while i < 10
        invariant
            n == date@.len(),
            n == 10,
            i <= 10,
            forall|j: int|
                0 <= j < i ==> if j == 4 || j == 7 {
                    date@[j] == '-'
                } else {
                    is_ascii_digit(#[trigger] date@[j])
                },
        decreases 10 - i,
    {
        let c = date.get_char(i);
        if i == 4 || i == 7 {
            if c != '-' {
                return false;
            }
        } else {
            if c < '0' || c > '9' {
                return false;
            }
        }
        i = i + 1;
    }
    true
}

/// Map a date key to the location of its document under `root`.
///
/// The result is a pure function of the two inputs — calling twice yields
/// the same path — and the layout never creates directories. A string
/// without the `YYYY-MM-DD` shape is rejected, never repaired.
pub fn locate(root: &str, date: &str) -> (r: Result<String, DateError>)
    ensures
        match r {
            Ok(p) => valid_date_key(date@) && p@ == spec_locate(root@, date@),
            Err(e) => !valid_date_key(date@) && e == DateError::Malformed,
        },
{
    if !check_date_key(date) {
        return Err(DateError::Malformed);
    }
    let n = date.unicode_len();
    let year = date.substring_char(0, 4);
    let month = date.substring_char(5, 7);
    let mut out: String = root.to_owned();
    proof {
        reveal_strlit("/");
        reveal_strlit(".json");
        assert("/"@ =~= seq!['/']);
        assert(".json"@ =~= seq!['.', 'j', 's', 'o', 'n']);
    }
    out.append("/");
    out.append(year);
    out.append("/");
    out.append(month);
    out.append("/");
    out.append(date);
    out.append(".json");
    proof {
        assert(out@ =~= spec_locate(root@, date@));
    }
    Ok(out)
}

/// The layout stays inside a well-formed root: a located document path is
/// always a strict descendant of the playlists root.
pub proof fn lemma_locate_confined(root: Seq<char>, date: Seq<char>)
    requires
        is_storage_root(root),
    ensures
        is_descendant_of(spec_locate(root, date), root),
{
    let p = spec_locate(root, date);
    assert(p.take(root.len() as int) =~= root);
}

} // verus!

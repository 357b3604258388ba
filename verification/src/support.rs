//! Small helpers shared by the directory and the session layer: blank-string
//! detection, fresh identifiers, and the current time.

use vstd::assert_seqs_equal;
use vstd::prelude::*;

verus! {

/// What `str::trim` leaves of a string once leading and trailing whitespace
/// is removed.
pub uninterp spec fn trim_of(s: Seq<char>) -> Seq<char>;

/// A string is blank when trimming leaves nothing of it: empty, or made of
/// whitespace alone.
pub open spec fn blank(s: Seq<char>) -> bool {
    trim_of(s).len() == 0
}

/// Relies on `str::trim`: removes leading and trailing whitespace; an empty
/// string trims to an empty string.
#[verifier::external_body]
fn trimmed<'a>(s: &'a str) -> (r: &'a str)
    ensures
        r@ == trim_of(s@),
        s@.len() == 0 ==> r@.len() == 0,
{
    s.trim()
}

/// True exactly when `s` trims to nothing.
pub fn is_blank(s: &str) -> (r: bool)
    ensures
        r == blank(s@),
{
    trimmed(s).is_empty()
}

/// Relies on `uuid::Uuid::new_v4` and its `Display` impl: a fresh random
/// identifier in hyphenated form, 36 ASCII characters. Nothing is assumed of
/// its value beyond the length.
#[verifier::external_body]
pub(crate) fn fresh_id() -> (r: String)
    ensures
        r@.len() == 36,
{
    uuid::Uuid::new_v4().to_string()
}

/// Relies on `chrono::Utc::now` and `DateTime::timestamp_millis`: the current
/// time in milliseconds since the Unix epoch. Nothing is assumed of the value.
#[verifier::external_body]
pub(crate) fn now_millis() -> i64 {
    chrono::Utc::now().timestamp_millis()
}

/// View of a sequence of strings as a sequence of character sequences.
pub open spec fn views(s: Seq<String>) -> Seq<Seq<char>> {
    s.map_values(|x: String| x@)
}

/// No two entries are equal.
pub open spec fn distinct(s: Seq<Seq<char>>) -> bool {
    forall|i: int, j: int| 0 <= i < j < s.len() ==> s[i] != s[j]
}

pub proof fn lemma_views_push(s: Seq<String>, u: String)
    ensures
        views(s.push(u)) == views(s).push(u@),
{
    assert_seqs_equal!(views(s.push(u)) == views(s).push(u@));
}

pub proof fn lemma_views_remove(s: Seq<String>, i: int)
    requires
        0 <= i < s.len(),
    ensures
        views(s.remove(i)) == views(s).remove(i),
{
    assert_seqs_equal!(views(s.remove(i)) == views(s).remove(i));
}

/// A sequence without `x` stays distinct when `x` is appended.
pub proof fn lemma_distinct_push(s: Seq<Seq<char>>, x: Seq<char>)
    requires
        distinct(s),
        !s.contains(x),
    ensures
        distinct(s.push(x)),
{
    assert forall|i: int, j: int| 0 <= i < j < s.push(x).len() implies s.push(x)[i] != s.push(x)[j] by {
        if j == s.len() {
            assert(s[i] == s.push(x)[i]);
            if s[i] == x {
                assert(s.contains(x));
            }
        }
    }
}

/// Removing an entry keeps a distinct sequence distinct.
pub proof fn lemma_distinct_remove(s: Seq<Seq<char>>, i: int)
    requires
        distinct(s),
        0 <= i < s.len(),
    ensures
        distinct(s.remove(i)),
{
    assert forall|p: int, q: int| 0 <= p < q < s.remove(i).len() implies s.remove(i)[p] != s.remove(i)[q] by {
        assert(s.remove(i)[p] == (if p < i { s[p] } else { s[p + 1] }));
        assert(s.remove(i)[q] == (if q < i { s[q] } else { s[q + 1] }));
    }
}

/// In a distinct sequence, an entry equal to `x` can stand at one index only,
/// so once it is removed, `x` is gone.
pub proof fn lemma_distinct_remove_loses(s: Seq<Seq<char>>, x: Seq<char>, i: int)
    requires
        distinct(s),
        0 <= i < s.len(),
        s[i] == x,
    ensures
        !s.remove(i).contains(x),
{
    if s.remove(i).contains(x) {
        let j = choose|j: int| 0 <= j < s.remove(i).len() && s.remove(i)[j] == x;
        assert(s.remove(i)[j] == (if j < i { s[j] } else { s[j + 1] }));
    }
}

/// First index of `x` in `v`, if any; used by every lookup in the directory
/// and the registry.
pub fn index_of_str(v: &Vec<String>, x: &String) -> (r: Option<usize>)
    ensures
        match r {
            Some(i) => i < v@.len() && views(v@)[i as int] == x@
                && forall|j: int| 0 <= j < i ==> views(v@)[j] != x@,
            None => forall|j: int| 0 <= j < v@.len() ==> views(v@)[j] != x@,
        },
{
    let mut i: usize = 0;
    while i < v.len()
        invariant
            i <= v@.len(),
            forall|j: int| 0 <= j < i ==> views(v@)[j] != x@,
        decreases v@.len() - i,
    {
        if v[i].eq(x) {
            assert(views(v@)[i as int] == x@);
            return Some(i);
        }
        i = i + 1;
    }
    None
}

/// True exactly when some entry of `v` views to `x@`.
pub fn contains_str(v: &Vec<String>, x: &String) -> (r: bool)
    ensures
        r == views(v@).contains(x@),
{
    let r = index_of_str(v, x);
    match r {
        Some(i) => {
            assert(views(v@)[i as int] == x@);
            true
        },
        None => {
            assert(!views(v@).contains(x@)) by {
                if views(v@).contains(x@) {
                    let j = choose|j: int| 0 <= j < views(v@).len() && views(v@)[j] == x@;
                    assert(views(v@)[j] != x@);
                }
            }
            false
        },
    }
}

} // verus!

//! The peer-name table: a bidirectional, insertion-ordered mapping
//! between external peer names and the dense indices the sparse
//! structures work on.

use vstd::prelude::*;
use crate::errors::SparseError;

verus! {

/// Whether some stored name spells the given key.
pub open spec fn contains_name(names: Seq<String>, key: Seq<char>) -> bool {
    exists|j: int| 0 <= j < names.len() && names[j]@ == key
}

/// An insertion-ordered table of peer names: a name's position is its
/// peer index, so the table maps in both directions at once.
pub struct PeersMap {
    pub names: Vec<String>,
}

impl PeersMap {
    /// No duplicate names are stored.
    pub open spec fn wf(self) -> bool {
        forall|i: int, j: int| 0 <= i < j < self.names@.len() ==> self.names@[i]@ != self.names@[j]@
    }

    /// An empty table.
    pub fn new() -> (m: PeersMap)
        ensures
            m.names@.len() == 0,
            m.wf(),
    {
        PeersMap { names: Vec::new() }
    }

    /// The index of the name, inserting it at the end if it is new.
    pub fn insert_or_get(&mut self, key: String) -> (r: usize)
        ensures
            contains_name(old(self).names@, key@) ==> {
                &&& final(self).names@ == old(self).names@
                &&& r < old(self).names@.len()
                &&& final(self).names@[r as int]@ == key@
                &&& forall|j: int| 0 <= j < r ==> final(self).names@[j]@ != key@
            },
            !contains_name(old(self).names@, key@) ==> {
                &&& final(self).names@ == old(self).names@.push(key)
                &&& r == old(self).names@.len()
            },
            old(self).wf() ==> final(self).wf(),
    {
        let mut k: usize = 0;
        while k < self.names.len()
            invariant
                0 <= k <= self.names@.len(),
                self.names@ == old(self).names@,
                forall|j: int| 0 <= j < k ==> self.names@[j]@ != key@,
            decreases self.names@.len() - k,
        {
            if self.names[k] == key {
                return k;
            }
            k += 1;
        }
        self.names.push(key);
        proof {
            assert forall|i: int, j: int|
                0 <= i < j < self.names@.len() && old(self).wf() implies self.names@[i]@
                != self.names@[j]@ by {
                if j < self.names@.len() - 1 {
                    assert(self.names@[i] == old(self).names@[i]);
                    assert(self.names@[j] == old(self).names@[j]);
                } else {
                    assert(self.names@[i] == old(self).names@[i]);
                }
            }
        }
        self.names.len() - 1
    }

    /// The number of distinct names seen so far, which is also the next
    /// fresh index.
    pub fn get_max_value(&self) -> (r: usize)
        ensures
            r == self.names@.len(),
    {
        self.names.len()
    }
}

/// The index of a known peer name; a name the table has never seen is
/// refused.
pub fn parse_peer_id(peer_str: &str, peers: &PeersMap) -> (r: Result<usize, SparseError>)
    ensures
        match r {
            Ok(i) => i < peers.names@.len() && peers.names@[i as int]@ == peer_str@ && forall|
                j: int,
            | 0 <= j < i ==> peers.names@[j]@ != peer_str@,
            Err(e) => e == SparseError::UnknownPeer && !contains_name(peers.names@, peer_str@),
        },
{
    let key = peer_str.to_owned();
    let mut k: usize = 0;
    while k < peers.names.len()
        invariant
            key@ == peer_str@,
            0 <= k <= peers.names@.len(),
            forall|j: int| 0 <= j < k ==> peers.names@[j]@ != peer_str@,
        decreases peers.names@.len() - k,
    {
        if peers.names[k] == key {
            return Ok(k);
        }
        k += 1;
    }
    Err(SparseError::UnknownPeer)
}

/// A millisecond timestamp; no clock is available to verified code, so
/// every reading is zero.
pub fn current_time_millis() -> (t: u64)
    ensures
        t == 0,
{
    0
}

/// A decimal digit.
pub open spec fn is_digit(c: char) -> bool {
    48 <= c as u32 <= 57
}

/// Every character is a digit.
pub open spec fn all_digits(s: Seq<char>) -> bool {
    forall|j: int| 0 <= j < s.len() ==> is_digit(#[trigger] s[j])
}

/// The same letter, ignoring ASCII case; `lc` is the lowercase side.
pub open spec fn eq_lower(c: char, lc: char) -> bool {
    c as u32 == lc as u32 || c as u32 == lc as u32 - 32
}

/// The position of the first newline, if any.
pub open spec fn first_newline(s: Seq<char>) -> Option<int>
    decreases s.len(),
{
    if s.len() == 0 {
        None
    } else {
        match first_newline(s.drop_last()) {
            Some(i) => Some(i),
            None => if s.last() == '\n' {
                Some(s.len() - 1)
            } else {
                None
            },
        }
    }
}

/// The position of the first exponent marker, if any.
pub open spec fn first_exp_marker(s: Seq<char>) -> Option<int>
    decreases s.len(),
{
    if s.len() == 0 {
        None
    } else {
        match first_exp_marker(s.drop_last()) {
            Some(i) => Some(i),
            None => if s.last() == 'e' || s.last() == 'E' {
                Some(s.len() - 1)
            } else {
                None
            },
        }
    }
}

/// The position of the first decimal point, if any.
pub open spec fn first_dot(s: Seq<char>) -> Option<int>
    decreases s.len(),
{
    if s.len() == 0 {
        None
    } else {
        match first_dot(s.drop_last()) {
            Some(i) => Some(i),
            None => if s.last() == '.' {
                Some(s.len() - 1)
            } else {
                None
            },
        }
    }
}

/// The position of the last comma, if any.
pub open spec fn last_comma(s: Seq<char>) -> Option<int>
    decreases s.len(),
{
    if s.len() == 0 {
        None
    } else if s.last() == ',' {
        Some(s.len() - 1)
    } else {
        last_comma(s.drop_last())
    }
}

/// A significand: digits, or digits around a single decimal point with
/// at least one digit on some side.
pub open spec fn is_significand(s: Seq<char>) -> bool {
    match first_dot(s) {
        None => s.len() > 0 && all_digits(s),
        Some(i) => s.len() > 1 && all_digits(s.take(i)) && all_digits(s.skip(i + 1)),
    }
}

/// An optionally signed digit run.
pub open spec fn is_signed_digits(s: Seq<char>) -> bool {
    let b = if s.len() > 0 && (s[0] == '+' || s[0] == '-') {
        s.skip(1)
    } else {
        s
    };
    b.len() > 0 && all_digits(b)
}

/// One of the special values, ignoring case.
pub open spec fn is_special_value(s: Seq<char>) -> bool {
    ||| (s.len() == 3 && eq_lower(s[0], 'i') && eq_lower(s[1], 'n') && eq_lower(s[2], 'f'))
    ||| (s.len() == 8 && eq_lower(s[0], 'i') && eq_lower(s[1], 'n') && eq_lower(s[2], 'f')
        && eq_lower(s[3], 'i') && eq_lower(s[4], 'n') && eq_lower(s[5], 'i') && eq_lower(
        s[6],
        't',
    ) && eq_lower(s[7], 'y'))
    ||| (s.len() == 3 && eq_lower(s[0], 'n') && eq_lower(s[1], 'a') && eq_lower(s[2], 'n'))
}

/// The grammar of a floating-point number: an optional sign, then a
/// special value, or a significand with an optional signed exponent.
pub open spec fn is_float_literal(s: Seq<char>) -> bool {
    let b = if s.len() > 0 && (s[0] == '+' || s[0] == '-') {
        s.skip(1)
    } else {
        s
    };
    is_special_value(b) || (match first_exp_marker(b) {
        None => is_significand(b),
        Some(i) => is_significand(b.take(i)) && is_signed_digits(b.skip(i + 1)),
    })
}

/// What stripping does: when the last comma-separated field of the first
/// line is not a number, that line is a header and everything after it
/// remains; otherwise the text is untouched.  A line ends at the first
/// newline, and a carriage return just before it belongs to the line
/// terminator, not to the field.
pub open spec fn strip_headers_spec(s: Seq<char>) -> Seq<char> {
    let ll = match first_newline(s) {
        Some(i) => i,
        None => s.len() as int,
    };
    let raw_line = s.take(ll);
    let line = if raw_line.len() > 0 && raw_line.last() == '\r' {
        raw_line.drop_last()
    } else {
        raw_line
    };
    let field = match last_comma(line) {
        Some(j) => line.skip(j + 1),
        None => line,
    };
    if is_float_literal(field) {
        s
    } else if ll < s.len() {
        s.skip(ll + 1)
    } else {
        Seq::empty()
    }
}

/// The characters of a string, in order.
fn chars_of(s: &str) -> (v: Vec<char>)
    ensures
        v@ == s@,
{
    let n = s.unicode_len();
    let mut v: Vec<char> = Vec::new();
    let mut k: usize = 0;
    while k < n
        invariant
            n == s@.len(),
            0 <= k <= n,
            v@ == s@.take(k as int),
        decreases n - k,
    {
        v.push(s.get_char(k));
        proof {
            assert(v@ =~= s@.take(k + 1));
        }
        k += 1;
    }
    proof {
        assert(s@.take(n as int) =~= s@);
    }
    v
}

/// A copy of the character range `[from, to)`.
fn char_range(v: &Vec<char>, from: usize, to: usize) -> (r: Vec<char>)
    requires
        from <= to <= v@.len(),
    ensures
        r@ == v@.subrange(from as int, to as int),
{
    let mut r: Vec<char> = Vec::new();
    let mut k: usize = from;
    while k < to
        invariant
            from <= k <= to <= v@.len(),
            r@ == v@.subrange(from as int, k as int),
        decreases to - k,
    {
        r.push(v[k]);
        proof {
            assert(r@ =~= v@.subrange(from as int, k + 1));
        }
        k += 1;
    }
    r
}

/// The first exponent marker of a character list.
fn find_exp_marker(v: &Vec<char>) -> (r: Option<usize>)
    ensures
        match r {
            Some(i) => first_exp_marker(v@) == Some(i as int) && i < v@.len(),
            None => first_exp_marker(v@) is None,
        },
{
    let mut found: Option<usize> = None;
    let mut k: usize = 0;
    while k < v.len()
        invariant
            0 <= k <= v@.len(),
            match found {
                Some(i) => first_exp_marker(v@.take(k as int)) == Some(i as int) && i < k,
                None => first_exp_marker(v@.take(k as int)) is None,
            },
        decreases v@.len() - k,
    {
        let ghost pre = v@.take(k as int);
        let c = v[k];
        if found.is_none() && (c == 'e' || c == 'E') {
            found = Some(k);
        }
        proof {
            assert(v@.take(k + 1).drop_last() =~= pre);
            assert(v@.take(k + 1).last() == c);
        }
        k += 1;
    }
    proof {
        assert(v@.take(v@.len() as int) =~= v@);
    }
    found
}

/// The first decimal point of a character list.
fn find_dot(v: &Vec<char>) -> (r: Option<usize>)
    ensures
        match r {
            Some(i) => first_dot(v@) == Some(i as int) && i < v@.len(),
            None => first_dot(v@) is None,
        },
{
    let mut found: Option<usize> = None;
    let mut k: usize = 0;
    while k < v.len()
        invariant
            0 <= k <= v@.len(),
            match found {
                Some(i) => first_dot(v@.take(k as int)) == Some(i as int) && i < k,
                None => first_dot(v@.take(k as int)) is None,
            },
        decreases v@.len() - k,
    {
        let ghost pre = v@.take(k as int);
        let c = v[k];
        if found.is_none() && c == '.' {
            found = Some(k);
        }
        proof {
            assert(v@.take(k + 1).drop_last() =~= pre);
            assert(v@.take(k + 1).last() == c);
        }
        k += 1;
    }
    proof {
        assert(v@.take(v@.len() as int) =~= v@);
    }
    found
}

/// Whether every character in `[from, to)` is a digit.
fn digits_in_range(v: &Vec<char>, from: usize, to: usize) -> (r: bool)
    requires
        from <= to <= v@.len(),
    ensures
        r == all_digits(v@.subrange(from as int, to as int)),
{
    let mut k: usize = from;
    while k < to
        invariant
            from <= k <= to <= v@.len(),
            forall|j: int| from <= j < k ==> is_digit(#[trigger] v@[j]),
        decreases to - k,
    {
        let c = v[k] as u32;
        if !(48 <= c && c <= 57) {
            proof {
                assert(v@.subrange(from as int, to as int)[k - from] == v@[k as int]);
            }
            return false;
        }
        k += 1;
    }
    proof {
        assert forall|j: int|
            0 <= j < v@.subrange(from as int, to as int).len() implies is_digit(
            #[trigger] v@.subrange(from as int, to as int)[j],
        ) by {
            assert(v@.subrange(from as int, to as int)[j] == v@[from + j]);
        }
    }
    true
}

/// Whether the character list spells a significand.
fn significand_check(v: &Vec<char>) -> (r: bool)
    ensures
        r == is_significand(v@),
{
    match find_dot(v) {
        None => {
            proof {
                assert(v@.subrange(0, v@.len() as int) =~= v@);
            }
            v.len() > 0 && digits_in_range(v, 0, v.len())
        },
        Some(i) => {
            proof {
                assert(v@.subrange(0, i as int) =~= v@.take(i as int));
                assert(v@.subrange(i + 1, v@.len() as int) =~= v@.skip(i + 1));
            }
            v.len() > 1 && digits_in_range(v, 0, i) && digits_in_range(v, i + 1, v.len())
        },
    }
}

/// Whether the character list spells an optionally signed digit run.
fn signed_digits_check(v: &Vec<char>) -> (r: bool)
    ensures
        r == is_signed_digits(v@),
{
    let start: usize = if v.len() > 0 && (v[0] == '+' || v[0] == '-') {
        1
    } else {
        0
    };
    proof {
        if start == 0 {
            assert(v@.subrange(0, v@.len() as int) =~= v@);
        } else {
            assert(v@.subrange(1, v@.len() as int) =~= v@.skip(1));
        }
    }
    v.len() > start && digits_in_range(v, start, v.len())
}

/// Whether the character list spells one of the special values.
fn special_value_check(v: &Vec<char>) -> (r: bool)
    ensures
        r == is_special_value(v@),
{
    if v.len() == 3 {
        (eq_lower_exec(v[0], 'i') && eq_lower_exec(v[1], 'n') && eq_lower_exec(v[2], 'f'))
            || (eq_lower_exec(v[0], 'n') && eq_lower_exec(v[1], 'a') && eq_lower_exec(v[2], 'n'))
    } else if v.len() == 8 {
        eq_lower_exec(v[0], 'i') && eq_lower_exec(v[1], 'n') && eq_lower_exec(v[2], 'f')
            && eq_lower_exec(v[3], 'i') && eq_lower_exec(v[4], 'n') && eq_lower_exec(v[5], 'i')
            && eq_lower_exec(v[6], 't') && eq_lower_exec(v[7], 'y')
    } else {
        false
    }
}

/// The same letter, ignoring ASCII case.
fn eq_lower_exec(c: char, lc: char) -> (r: bool)
    requires
        lc as u32 >= 32,
    ensures
        r == eq_lower(c, lc),
{
    c as u32 == lc as u32 || c as u32 == lc as u32 - 32
}

/// Whether the character list spells a floating-point number.
fn float_literal_check(v: &Vec<char>) -> (r: bool)
    ensures
        r == is_float_literal(v@),
{
    let start: usize = if v.len() > 0 && (v[0] == '+' || v[0] == '-') {
        1
    } else {
        0
    };
    let body = char_range(v, start, v.len());
    proof {
        if start == 0 {
            assert(body@ =~= v@);
        } else {
            assert(body@ =~= v@.skip(1));
        }
    }
    if special_value_check(&body) {
        return true;
    }
    match find_exp_marker(&body) {
        None => significand_check(&body),
        Some(i) => {
            let mantissa = char_range(&body, 0, i);
            let exponent = char_range(&body, i + 1, body.len());
            proof {
                assert(mantissa@ =~= body@.take(i as int));
                assert(exponent@ =~= body@.skip(i + 1));
            }
            significand_check(&mantissa) && signed_digits_check(&exponent)
        },
    }
}

/// Drop a leading header line: when the last comma-separated field of
/// the first line does not spell a number, the first line is a header
/// and everything after it is returned; otherwise the text comes back
/// untouched.
pub fn strip_headers(csv_content: &str) -> (r: &str)
    ensures
        r@ == strip_headers_spec(csv_content@),
{
    let v = chars_of(csv_content);
    let n = v.len();
    let mut nl: Option<usize> = None;
    let mut k: usize = 0;
    while k < n
        invariant
            n == v@.len(),
            v@ == csv_content@,
            0 <= k <= n,
            match nl {
                Some(i) => first_newline(v@.take(k as int)) == Some(i as int) && i < k,
                None => first_newline(v@.take(k as int)) is None,
            },
        decreases n - k,
    {
        let ghost pre = v@.take(k as int);
        let c = v[k];
        if nl.is_none() && c == '\n' {
            nl = Some(k);
        }
        proof {
            assert(v@.take(k + 1).drop_last() =~= pre);
            assert(v@.take(k + 1).last() == c);
        }
        k += 1;
    }
    proof {
        assert(v@.take(n as int) =~= v@);
    }
    let line_end = match nl {
        Some(i) => i,
        None => n,
    };
    let trim_end = if line_end > 0 && v[line_end - 1] == '\r' {
        line_end - 1
    } else {
        line_end
    };
    let mut comma: Option<usize> = None;
    let mut j: usize = 0;
    while j < trim_end
        invariant
            n == v@.len(),
            v@ == csv_content@,
            trim_end <= line_end <= n,
            0 <= j <= trim_end,
            match comma {
                Some(i) => last_comma(v@.take(j as int)) == Some(i as int) && i < j,
                None => last_comma(v@.take(j as int)) is None,
            },
        decreases trim_end - j,
    {
        let ghost pre = v@.take(j as int);
        let c = v[j];
        if c == ',' {
            comma = Some(j);
        }
        proof {
            assert(v@.take(j + 1).drop_last() =~= pre);
            assert(v@.take(j + 1).last() == c);
        }
        j += 1;
    }
    let field_start = match comma {
        Some(i) => i + 1,
        None => 0,
    };
    let field = char_range(&v, field_start, trim_end);
    proof {
        let raw_line = csv_content@.take(line_end as int);
        let line = if raw_line.len() > 0 && raw_line.last() == '\r' {
            raw_line.drop_last()
        } else {
            raw_line
        };
        assert(line =~= csv_content@.take(trim_end as int));
        match last_comma(line) {
            Some(i) => {
                assert(field@ =~= line.skip(i + 1));
            },
            None => {
                assert(field@ =~= line);
            },
        }
    }
    if float_literal_check(&field) {
        csv_content
    } else if line_end < n {
        let rest = csv_content.substring_char(line_end + 1, n);
        proof {
            assert(rest@ =~= csv_content@.skip(line_end + 1));
        }
        rest
    } else {
        let empty = csv_content.substring_char(n, n);
        proof {
            assert(empty@ =~= Seq::<char>::empty());
        }
        empty
    }
}

} // verus!

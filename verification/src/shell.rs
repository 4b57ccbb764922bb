//! Choosing the login shell for a spawned session.
//!
//! The policy: an explicit, non-empty environment override wins; otherwise
//! the user-identity database (the colon-separated records of `passwd`) is
//! consulted for the entry of the given user id; otherwise a fixed default.
//! The lookup itself is pure: it takes the database's bytes and the user id
//! and returns the shell field of the first matching record, trimmed of
//! ASCII whitespace, if it is non-empty.

use vstd::prelude::*;
use vstd::slice::{slice_subrange, slice_to_vec};

verus! {

/// The byte separating fields of a record.
pub const FIELD_SEP: u8 = 58;

/// The byte separating records.
pub const LINE_SEP: u8 = 10;

// ---------------------------------------------------------------------------
// Splitting on a separator byte.
// ---------------------------------------------------------------------------

/// The position of the first `sep` in `s`, or -1 if there is none.
pub open spec fn find_sep(s: Seq<u8>, sep: u8) -> int
    decreases s.len(),
{
    if s.len() == 0 {
        -1
    } else if s[0] == sep {
        0
    } else if find_sep(s.skip(1), sep) < 0 {
        -1
    } else {
        1 + find_sep(s.skip(1), sep)
    }
}

/// The segments of `s` between occurrences of `sep`: one more segment than
/// separators, so an empty input gives one empty segment, and a trailing
/// separator a trailing empty segment.
pub open spec fn spec_split(s: Seq<u8>, sep: u8) -> Seq<Seq<u8>>
    decreases s.len(),
{
    let i = find_sep(s, sep);
    if 0 <= i && i < s.len() {
        seq![s.take(i)] + spec_split(s.skip(i + 1), sep)
    } else {
        seq![s]
    }
}

/// The views of a list of byte vectors.
pub open spec fn views_of(parts: Seq<Vec<u8>>) -> Seq<Seq<u8>> {
    parts.map_values(|p: Vec<u8>| p@)
}

proof fn lemma_find_sep_at(s: Seq<u8>, sep: u8, k: int)
    requires
        0 <= k <= s.len(),
        forall|j: int| 0 <= j < k ==> s[j] != sep,
        k == s.len() || s[k] == sep,
    ensures
        find_sep(s, sep) == if k == s.len() {
            -1int
        } else {
            k
        },
    decreases s.len(),
{
    if s.len() == 0 {
    } else if k == 0 {
    } else {
        assert(s[0] != sep);
        assert forall|j: int| 0 <= j < k - 1 implies s.skip(1)[j] != sep by {
            assert(s.skip(1)[j] == s[j + 1]);
        }
        if k < s.len() {
            assert(s.skip(1)[k - 1] == s[k]);
        }
        lemma_find_sep_at(s.skip(1), sep, k - 1);
    }
}

/// Split a byte string on a separator byte. The result holds the segments
/// between separators, in order: `spec_split` exactly.
pub fn split_bytes(s: &[u8], sep: u8) -> (parts: Vec<Vec<u8>>)
    ensures
        views_of(parts@) == spec_split(s@, sep),
{
    let mut parts: Vec<Vec<u8>> = Vec::new();
    let mut start: usize = 0;
    let mut i: usize = 0;
    let n = s.len();
    proof {
        assert(s@.skip(0) =~= s@);
        assert(views_of(parts@) + spec_split(s@.skip(0), sep) =~= spec_split(s@, sep));
    }
    while i < n
        invariant
            n == s@.len(),
            start <= i <= n,
            forall|j: int| start <= j < i ==> s@[j] != sep,
            spec_split(s@, sep) == views_of(parts@) + spec_split(s@.skip(start as int), sep),
        decreases n - i,
    {
        if s[i] == sep {
            let seg = slice_to_vec(slice_subrange(s, start, i));
            proof {
                let rest = s@.skip(start as int);
                assert forall|j: int| 0 <= j < i - start implies rest[j] != sep by {
                    assert(rest[j] == s@[start + j]);
                }
                assert(rest[i - start] == s@[i as int]);
                lemma_find_sep_at(rest, sep, i - start);
                assert(rest.take(i - start) =~= s@.subrange(start as int, i as int));
                assert(rest.skip(i - start + 1) =~= s@.skip(i + 1));
                assert(spec_split(rest, sep) == seq![seg@] + spec_split(s@.skip(i + 1), sep));
                assert(views_of(parts@) + (seq![seg@] + spec_split(s@.skip(i + 1), sep)) =~= (
                views_of(parts@) + seq![seg@]) + spec_split(s@.skip(i + 1), sep));
                assert(views_of(parts@) + seq![seg@] =~= views_of(parts@.push(seg)));
            }
            parts.push(seg);
            start = i + 1;
        }
        i += 1;
    }
    let seg = slice_to_vec(slice_subrange(s, start, n));
    proof {
        let rest = s@.skip(start as int);
        assert forall|j: int| 0 <= j < rest.len() implies rest[j] != sep by {
            assert(rest[j] == s@[start + j]);
        }
        lemma_find_sep_at(rest, sep, rest.len() as int);
        assert(rest =~= s@.subrange(start as int, n as int));
        assert(spec_split(rest, sep) == seq![rest]);
        assert(views_of(parts@) + seq![seg@] =~= views_of(parts@.push(seg)));
    }
    parts.push(seg);
    parts
}

// ---------------------------------------------------------------------------
// Trimming ASCII whitespace.
// ---------------------------------------------------------------------------

/// Whether a byte is ASCII whitespace: space, or one of the controls
/// HT, LF, VT, FF, CR.
pub open spec fn is_ascii_ws(b: u8) -> bool {
    b == 32 || (9 <= b && b <= 13)
}

/// How many whitespace bytes `s` starts with.
pub open spec fn ws_prefix_len(s: Seq<u8>) -> int
    decreases s.len(),
{
    if s.len() == 0 {
        0
    } else if !is_ascii_ws(s[0]) {
        0
    } else {
        1 + ws_prefix_len(s.skip(1))
    }
}

/// Where the trailing whitespace of `s` begins.
pub open spec fn ws_suffix_start(s: Seq<u8>) -> int
    decreases s.len(),
{
    if s.len() == 0 {
        0
    } else if !is_ascii_ws(s.last()) {
        s.len() as int
    } else {
        ws_suffix_start(s.drop_last())
    }
}

/// `s` without leading and trailing ASCII whitespace.
pub open spec fn trim_spec(s: Seq<u8>) -> Seq<u8> {
    if ws_prefix_len(s) >= ws_suffix_start(s) {
        Seq::<u8>::empty()
    } else {
        s.subrange(ws_prefix_len(s), ws_suffix_start(s))
    }
}

proof fn lemma_ws_prefix_at(s: Seq<u8>, k: int)
    requires
        0 <= k <= s.len(),
        forall|j: int| 0 <= j < k ==> is_ascii_ws(s[j]),
        k == s.len() || !is_ascii_ws(s[k]),
    ensures
        ws_prefix_len(s) == k,
    decreases s.len(),
{
    if s.len() == 0 {
    } else if k == 0 {
    } else {
        assert forall|j: int| 0 <= j < k - 1 implies is_ascii_ws(s.skip(1)[j]) by {
            assert(s.skip(1)[j] == s[j + 1]);
        }
        if k < s.len() {
            assert(s.skip(1)[k - 1] == s[k]);
        }
        lemma_ws_prefix_at(s.skip(1), k - 1);
    }
}

proof fn lemma_ws_suffix_at(s: Seq<u8>, k: int)
    requires
        0 <= k <= s.len(),
        forall|j: int| k <= j < s.len() ==> is_ascii_ws(s[j]),
        k == 0 || !is_ascii_ws(s[k - 1]),
    ensures
        ws_suffix_start(s) == k,
    decreases s.len(),
{
    if s.len() == 0 {
    } else if k == s.len() {
    } else {
        assert(is_ascii_ws(s.last()));
        assert forall|j: int| k <= j < s.drop_last().len() implies is_ascii_ws(
            s.drop_last()[j],
        ) by {
            assert(s.drop_last()[j] == s[j]);
        }
        lemma_ws_suffix_at(s.drop_last(), k);
    }
}

/// Whether a byte is ASCII whitespace.
fn is_ws_byte(b: u8) -> (r: bool)
    ensures
        r == is_ascii_ws(b),
{
    b == 32 || (9 <= b && b <= 13)
}

/// A copy of `s` without leading and trailing ASCII whitespace.
pub fn trim_ascii_ws(s: &[u8]) -> (r: Vec<u8>)
    ensures
        r@ == trim_spec(s@),
{
    let n = s.len();
    let mut a: usize = 0;
    while a < n && is_ws_byte(s[a])
        invariant
            n == s@.len(),
            a <= n,
            forall|j: int| 0 <= j < a ==> is_ascii_ws(s@[j]),
        decreases n - a,
    {
        a += 1;
    }
    let mut b: usize = n;
    while b > a && is_ws_byte(s[b - 1])
        invariant
            n == s@.len(),
            a <= b <= n,
            forall|j: int| 0 <= j < a ==> is_ascii_ws(s@[j]),
            a == n || !is_ascii_ws(s@[a as int]),
            forall|j: int| b <= j < n ==> is_ascii_ws(s@[j]),
        decreases b,
    {
        b -= 1;
    }
    proof {
        lemma_ws_prefix_at(s@, a as int);
        if b == a {
            assert(a == n);
            lemma_ws_suffix_at(s@, 0);
        } else {
            lemma_ws_suffix_at(s@, b as int);
        }
    }
    slice_to_vec(slice_subrange(s, a, b))
}

// ---------------------------------------------------------------------------
// Parsing a decimal user id.
// ---------------------------------------------------------------------------

/// The number a sequence of decimal digits denotes.
pub open spec fn digits_value(s: Seq<u8>) -> int
    decreases s.len(),
{
    if s.len() == 0 {
        0
    } else {
        digits_value(s.drop_last()) * 10 + (s.last() - 48)
    }
}

/// Whether every byte is a decimal digit.
pub open spec fn all_digits(s: Seq<u8>) -> bool {
    forall|i: int| 0 <= i < s.len() ==> 48 <= #[trigger] s[i] <= 57
}

/// The bytes a number is parsed from: the input less an optional leading
/// plus sign.
pub open spec fn parse_tail(s: Seq<u8>) -> Seq<u8> {
    if s.len() > 0 && s[0] == 43 {
        s.skip(1)
    } else {
        s
    }
}

/// What parsing a decimal number yields: an optional leading plus sign,
/// then at least one digit, with a value that fits — anything else is
/// rejected.
pub open spec fn parse_u32_spec(s: Seq<u8>) -> Option<u32> {
    let t = parse_tail(s);
    if t.len() > 0 && all_digits(t) && digits_value(t) <= u32::MAX {
        Option::Some(digits_value(t) as u32)
    } else {
        Option::None
    }
}

proof fn lemma_digits_value_take_step(t: Seq<u8>, i: int)
    requires
        0 <= i < t.len(),
    ensures
        digits_value(t.take(i + 1)) == digits_value(t.take(i)) * 10 + (t[i] - 48),
{
    assert(t.take(i + 1).drop_last() =~= t.take(i));
    assert(t.take(i + 1).last() == t[i]);
}

proof fn lemma_digits_value_nonneg(s: Seq<u8>)
    requires
        all_digits(s),
    ensures
        digits_value(s) >= 0,
    decreases s.len(),
{
    if s.len() > 0 {
        assert forall|i: int| 0 <= i < s.drop_last().len() implies 48 <= #[trigger] s.drop_last()[i]
            <= 57 by {
            assert(s.drop_last()[i] == s[i]);
        }
        lemma_digits_value_nonneg(s.drop_last());
        assert(digits_value(s.drop_last()) * 10 >= 0) by (nonlinear_arith)
            requires
                digits_value(s.drop_last()) >= 0,
        ;
    }
}

proof fn lemma_digits_value_grows(t: Seq<u8>, i: int)
    requires
        all_digits(t),
        0 <= i <= t.len(),
    ensures
        digits_value(t.take(i)) <= digits_value(t),
    decreases t.len() - i,
{
    if i < t.len() {
        lemma_digits_value_take_step(t, i);
        assert forall|j: int| 0 <= j < t.take(i).len() implies 48 <= #[trigger] t.take(i)[j]
            <= 57 by {
            assert(t.take(i)[j] == t[j]);
        }
        lemma_digits_value_nonneg(t.take(i));
        assert(digits_value(t.take(i)) * 10 >= digits_value(t.take(i))) by (nonlinear_arith)
            requires
                digits_value(t.take(i)) >= 0,
        ;
        lemma_digits_value_grows(t, i + 1);
    } else {
        assert(t.take(t.len() as int) =~= t);
    }
}

/// Parse a decimal number from bytes: an optional leading plus sign, then
/// at least one digit; rejected if empty, if any byte is not a digit, or if
/// the value does not fit in 32 bits.
pub fn parse_u32_bytes(s: &[u8]) -> (r: Option<u32>)
    ensures
        r == parse_u32_spec(s@),
{
    let skip_plus: usize = if s.len() > 0 && s[0] == 43 {
        1
    } else {
        0
    };
    let t = slice_subrange(s, skip_plus, s.len());
    proof {
        if skip_plus == 1 {
            assert(t@ =~= s@.skip(1));
        } else {
            assert(t@ =~= s@);
        }
        assert(t@ == parse_tail(s@));
    }
    let n = t.len();
    if n == 0 {
        return None;
    }
    let mut acc: u32 = 0;
    let mut i: usize = 0;
    while i < n
        invariant
            t@ == parse_tail(s@),
            n == t@.len(),
            i <= n,
            all_digits(t@.take(i as int)),
            acc == digits_value(t@.take(i as int)),
        decreases n - i,
    {
        let b = t[i];
        if b < 48 || b > 57 {
            proof {
                assert(!all_digits(t@));
            }
            return None;
        }
        let d: u32 = (b - 48) as u32;
        proof {
            assert(all_digits(t@.take(i + 1))) by {
                assert forall|j: int| 0 <= j < i + 1 implies 48 <= #[trigger] t@.take(i + 1)[j]
                    <= 57 by {
                    if j < i {
                        assert(t@.take(i + 1)[j] == t@.take(i as int)[j]);
                    } else {
                        assert(t@.take(i + 1)[j] == t@[i as int]);
                    }
                }
            }
            lemma_digits_value_take_step(t@, i as int);
        }
        if acc > (u32::MAX - d) / 10 {
            proof {
                assert(acc * 10 + d > u32::MAX) by (nonlinear_arith)
                    requires
                        acc > (u32::MAX - d) / 10,
                        0 <= d <= 9,
                        acc >= 0,
                ;
                if all_digits(t@) {
                    lemma_digits_value_grows(t@, i + 1);
                    assert(digits_value(t@) > u32::MAX);
                }
            }
            return None;
        }
        proof {
            assert(acc * 10 + d <= u32::MAX) by (nonlinear_arith)
                requires
                    acc <= (u32::MAX - d) / 10,
                    0 <= d <= 9,
                    acc >= 0,
            ;
        }
        acc = acc * 10 + d;
        i += 1;
    }
    proof {
        assert(t@.take(n as int) =~= t@);
    }
    Some(acc)
}

// ---------------------------------------------------------------------------
// The lookup in the user-identity database, and the choice of shell.
// ---------------------------------------------------------------------------

/// What one record yields for a user id: its trimmed shell field, if the
/// record has at least seven fields, its third field parses to exactly that
/// id, and the trimmed shell field is non-empty.
pub open spec fn record_shell_for_uid(line: Seq<u8>, uid: u32) -> Option<Seq<u8>> {
    let fields = spec_split(line, FIELD_SEP);
    if fields.len() >= 7 && parse_u32_spec(fields[2]) == Option::Some(uid) && trim_spec(
        fields[6],
    ).len() > 0 {
        Option::Some(trim_spec(fields[6]))
    } else {
        Option::None
    }
}

/// The first record's answer, walking the records in order.
pub open spec fn first_record_shell(lines: Seq<Seq<u8>>, uid: u32) -> Option<Seq<u8>>
    decreases lines.len(),
{
    if lines.len() == 0 {
        Option::None
    } else if record_shell_for_uid(lines[0], uid) is Some {
        record_shell_for_uid(lines[0], uid)
    } else {
        first_record_shell(lines.skip(1), uid)
    }
}

/// What the database yields for a user id.
pub open spec fn spec_shell_from_passwd(content: Seq<u8>, uid: u32) -> Option<Seq<u8>> {
    first_record_shell(spec_split(content, LINE_SEP), uid)
}

/// Look the login shell of a user id up in the bytes of the user-identity
/// database: the first record with at least seven colon-separated fields
/// whose third field is the id and whose seventh field, trimmed, is
/// non-empty gives that trimmed field.
pub fn shell_from_passwd(content: &[u8], uid: u32) -> (r: Option<Vec<u8>>)
    ensures
        match r {
            Option::Some(v) => spec_shell_from_passwd(content@, uid) == Option::Some(v@),
            Option::None => spec_shell_from_passwd(content@, uid) is None,
        },
{
    let lines = split_bytes(content, LINE_SEP);
    let ghost line_views = views_of(lines@);
    let n = lines.len();
    let mut i: usize = 0;
    proof {
        assert(line_views.skip(0) =~= line_views);
    }
    while i < n
        invariant
            n == lines@.len(),
            i <= n,
            line_views == views_of(lines@),
            line_views == spec_split(content@, LINE_SEP),
            first_record_shell(line_views, uid) == first_record_shell(
                line_views.skip(i as int),
                uid,
            ),
        decreases n - i,
    {
        let line = &lines[i];
        let fields = split_bytes(line.as_slice(), FIELD_SEP);
        let ghost field_views = views_of(fields@);
        proof {
            assert(line_views[i as int] == lines@[i as int]@);
            assert(field_views == spec_split(line_views[i as int], FIELD_SEP));
        }
        let mut found: Option<Vec<u8>> = None;
        if fields.len() >= 7 {
            proof {
                assert(field_views[2] == fields@[2]@);
                assert(field_views[6] == fields@[6]@);
            }
            match parse_u32_bytes(fields[2].as_slice()) {
                Some(entry_uid) => {
                    if entry_uid == uid {
                        let sh = trim_ascii_ws(fields[6].as_slice());
                        if sh.len() > 0 {
                            found = Some(sh);
                        }
                    }
                },
                None => {},
            }
        }
        match found {
            Some(sh) => {
                proof {
                    assert(record_shell_for_uid(line_views[i as int], uid) == Option::Some(sh@));
                    assert(line_views.skip(i as int)[0] == line_views[i as int]);
                    assert(first_record_shell(line_views.skip(i as int), uid) == Option::Some(
                        sh@,
                    ));
                }
                return Some(sh);
            },
            None => {
                proof {
                    assert(record_shell_for_uid(line_views[i as int], uid) is None);
                    assert(line_views.skip(i as int)[0] == line_views[i as int]);
                    assert(line_views.skip(i as int).skip(1) =~= line_views.skip(i + 1));
                }
            },
        }
        i += 1;
    }
    proof {
        assert(line_views.skip(n as int) =~= Seq::<Seq<u8>>::empty());
    }
    None
}

/// The fixed default shell, `/bin/sh` in ASCII.
pub open spec fn default_shell() -> Seq<u8> {
    seq![47u8, 98u8, 105u8, 110u8, 47u8, 115u8, 104u8]
}

/// The shell to spawn, by the fixed policy: a non-empty environment
/// override first, then a non-empty database answer, then the default.
pub open spec fn spec_choose_shell(env_shell: Option<Seq<u8>>, db_shell: Option<Seq<u8>>) -> Seq<
    u8,
> {
    if env_shell matches Option::Some(e) && e.len() > 0 {
        env_shell->Some_0
    } else if db_shell matches Option::Some(d) && d.len() > 0 {
        db_shell->Some_0
    } else {
        default_shell()
    }
}

/// Choose the shell to spawn: the environment override if it is non-empty,
/// else the database answer if it is non-empty, else `/bin/sh`.
pub fn choose_shell(env_shell: Option<Vec<u8>>, db_shell: Option<Vec<u8>>) -> (r: Vec<u8>)
    ensures
        r@ == spec_choose_shell(
            match env_shell {
                Option::Some(ref e) => Option::Some(e@),
                Option::None => Option::None,
            },
            match db_shell {
                Option::Some(ref d) => Option::Some(d@),
                Option::None => Option::None,
            },
        ),
{
    if let Some(e) = env_shell {
        if e.len() > 0 {
            return e;
        }
        if let Some(d) = db_shell {
            if d.len() > 0 {
                return d;
            }
        }
    } else if let Some(d) = db_shell {
        if d.len() > 0 {
            return d;
        }
    }
    let mut r: Vec<u8> = Vec::new();
    r.push(47u8);
    r.push(98u8);
    r.push(105u8);
    r.push(110u8);
    r.push(47u8);
    r.push(115u8);
    r.push(104u8);
    proof {
        assert(r@ =~= default_shell());
    }
    r
}

} // verus!

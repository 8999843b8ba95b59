use vstd::prelude::*;
use vstd::string::*;

verus! {

/// Compares two string slices character by character.
pub fn str_eq(a: &str, b: &str) -> (r: bool)
    ensures
        r == (a@ == b@),
{
    let n = a.unicode_len();
    let m = b.unicode_len();
    if n != m {
        return false;
    }
    let mut i: usize = 0;
    while i < n
        invariant
            n == a@.len(),
            m == b@.len(),
            n == m,
            i <= n,
            forall|k: int| 0 <= k < i ==> a@[k] == b@[k],
        decreases n - i,
    {
        if a.get_char(i) != b.get_char(i) {
            assert(a@[i as int] != b@[i as int]);
            return false;
        }
        i += 1;
    }
    assert(a@ =~= b@);
    true
}

/// The value of a string of decimal digits.
pub open spec fn digits_value(s: Seq<char>) -> int
    decreases s.len(),
{
    if s.len() == 0 {
        0
    } else {
        digits_value(s.drop_last()) * 10 + (s.last() as int - '0' as int)
    }
}

/// Every character is a decimal digit.
pub open spec fn all_digits(s: Seq<char>) -> bool {
    forall|i: int| 0 <= i < s.len() ==> '0' as int <= #[trigger] s[i] as int <= '9' as int
}

/// The value of a decimal numeral for an unsigned integer type whose largest
/// value is `max`: an optional `+`, then one or more digits, with a value of
/// at most `max`; `None` for any other string.
pub open spec fn spec_parse_unsigned(s: Seq<char>, max: int) -> Option<int> {
    let digits = if s.len() > 0 && s[0] == '+' {
        s.drop_first()
    } else {
        s
    };
    if digits.len() > 0 && all_digits(digits) && 0 <= digits_value(digits) <= max {
        Some(digits_value(digits))
    } else {
        None
    }
}

/// Reads a decimal `u32` with `str::parse`, which takes an optional `+`
/// followed by one or more ASCII digits whose value fits in a `u32`, and
/// fails on any other string.
#[verifier::external_body]
pub(crate) fn parse_u32(s: &str) -> (r: Option<u32>)
    ensures
        match spec_parse_unsigned(s@, u32::MAX as int) {
            Some(v) => r == Some(v as u32),
            None => r is None,
        },
{
    s.parse::<u32>().ok()
}

/// Reads a decimal `usize` with `str::parse`, which takes an optional `+`
/// followed by one or more ASCII digits whose value fits in a `usize`, and
/// fails on any other string.
#[verifier::external_body]
pub(crate) fn parse_usize(s: &str) -> (r: Option<usize>)
    ensures
        match spec_parse_unsigned(s@, usize::MAX as int) {
            Some(v) => r == Some(v as usize),
            None => r is None,
        },
{
    s.parse::<usize>().ok()
}

/// The position of the last `-`, or -1 when there is none.
pub open spec fn rfind_dash(s: Seq<char>) -> int
    decreases s.len(),
{
    if s.len() == 0 {
        -1
    } else if s.last() == '-' {
        s.len() - 1
    } else {
        rfind_dash(s.drop_last())
    }
}

/// The last `-` is at the position that `rfind_dash` gives.
proof fn lemma_rfind_dash(s: Seq<char>)
    ensures
        -1 <= rfind_dash(s) < s.len(),
        rfind_dash(s) >= 0 ==> s[rfind_dash(s)] == '-',
        forall|i: int| rfind_dash(s) < i < s.len() ==> s[i] != '-',
    decreases s.len(),
{
    if s.len() > 0 && s.last() != '-' {
        lemma_rfind_dash(s.drop_last());
        assert forall|i: int| rfind_dash(s) < i < s.len() implies s[i] != '-' by {
            if i < s.len() - 1 {
                assert(s.drop_last()[i] == s[i]);
            }
        }
    }
}

/// Finds the last `-` among the first `end` characters.
fn rfind_dash_before(s: &str, end: usize) -> (r: Option<usize>)
    requires
        end <= s@.len(),
    ensures
        match r {
            Some(p) => p < end && p as int == rfind_dash(s@.subrange(0, end as int)),
            None => rfind_dash(s@.subrange(0, end as int)) == -1,
        },
{
    let ghost t = s@.subrange(0, end as int);
    proof {
        lemma_rfind_dash(t);
    }
    let mut i = end;
    while i > 0
        invariant
            i <= end,
            end <= s@.len(),
            t == s@.subrange(0, end as int),
            -1 <= rfind_dash(t) < t.len(),
            rfind_dash(t) >= 0 ==> t[rfind_dash(t)] == '-',
            forall|x: int| rfind_dash(t) < x < t.len() ==> t[x] != '-',
            forall|x: int| i <= x < end ==> s@[x] != '-',
        decreases i,
    {
        i -= 1;
        if s.get_char(i) == '-' {
            assert(t[i as int] == '-');
            return Some(i);
        }
    }
    None
}

/// The parts of an authentication string, split at its last two `-`: the
/// operator's number and the instance id before them; `None` when it has
/// fewer than two `-` or the last part is no `u32`.
pub open spec fn spec_parse_auth(auth: Seq<char>) -> Option<(u32, Seq<char>)> {
    let r1 = rfind_dash(auth);
    let rest = auth.subrange(0, r1);
    let r2 = rfind_dash(rest);
    if r1 < 0 || r2 < 0 {
        None
    } else {
        match spec_parse_unsigned(auth.subrange(r1 + 1, auth.len() as int), u32::MAX as int) {
            Some(v) => Some((v as u32, rest.subrange(0, r2))),
            None => None,
        }
    }
}

/// Splits an authentication string of the form `<instance>-<part>-<operator>`
/// from the right: the operator's number and the instance id.
pub fn parse_auth(auth: &str) -> (r: Option<(u32, String)>)
    ensures
        match spec_parse_auth(auth@) {
            Some((op, inst)) => r matches Some((o, i)) && o == op && i@ == inst,
            None => r is None,
        },
{
    let n = auth.unicode_len();
    let r1 = match rfind_dash_before(auth, n) {
        Some(p) => p,
        None => {
            proof {
                assert(auth@.subrange(0, n as int) =~= auth@);
            }
            return None;
        },
    };
    proof {
        assert(auth@.subrange(0, n as int) =~= auth@);
    }
    let op_text = auth.substring_char(r1 + 1, n);
    let op = parse_u32(op_text);
    let r2 = match rfind_dash_before(auth, r1) {
        Some(p) => p,
        None => {
            return None;
        },
    };
    match op {
        Some(v) => {
            let inst = auth.substring_char(0, r2).to_owned();
            proof {
                assert(auth@.subrange(0, r1 as int).subrange(0, r2 as int) =~= auth@.subrange(0, r2 as int));
            }
            Some((v, inst))
        },
        None => None,
    }
}


/// The value of a string of digits is not negative.
proof fn lemma_digits_nonneg(s: Seq<char>)
    requires
        all_digits(s),
    ensures
        digits_value(s) >= 0,
    decreases s.len(),
{
    if s.len() > 0 {
        assert(all_digits(s.drop_last())) by {
            assert forall|i: int| 0 <= i < s.drop_last().len() implies '0' as int <= #[trigger] s.drop_last()[i] as int
                <= '9' as int by {
                assert(s.drop_last()[i] == s[i]);
            }
        }
        lemma_digits_nonneg(s.drop_last());
        assert('0' as int <= s[s.len() - 1] as int);
    }
}

/// The last `-` of `a`, a `-`, then `b` without `-`, is the one after `a`.
proof fn lemma_rfind_dash_suffix(a: Seq<char>, b: Seq<char>)
    requires
        forall|i: int| 0 <= i < b.len() ==> b[i] != '-',
    ensures
        rfind_dash(a + seq!['-'] + b) == a.len(),
    decreases b.len(),
{
    let s = a + seq!['-'] + b;
    if b.len() == 0 {
        assert(s.last() == '-');
    } else {
        assert(s.last() == b.last());
        assert(s.drop_last() =~= a + seq!['-'] + b.drop_last());
        lemma_rfind_dash_suffix(a, b.drop_last());
    }
}

/// An authentication string built from an instance id, a part without `-`
/// and an operator's number in decimal is read back as that number and that
/// instance id.
pub proof fn law_parse_auth_roundtrip(inst: Seq<char>, mid: Seq<char>, digits: Seq<char>)
    requires
        forall|i: int| 0 <= i < mid.len() ==> mid[i] != '-',
        digits.len() > 0,
        all_digits(digits),
        digits_value(digits) <= u32::MAX,
    ensures
        spec_parse_auth(inst + seq!['-'] + mid + seq!['-'] + digits) == Some(
            (digits_value(digits) as u32, inst),
        ),
{
    lemma_digits_nonneg(digits);
    let head = inst + seq!['-'] + mid;
    let s = head + seq!['-'] + digits;
    assert(s =~= inst + seq!['-'] + mid + seq!['-'] + digits);
    assert forall|i: int| 0 <= i < digits.len() implies digits[i] != '-' by {
        assert('0' as int <= digits[i] as int <= '9' as int);
    }
    lemma_rfind_dash_suffix(head, digits);
    let r1 = rfind_dash(s);
    assert(r1 == head.len());
    let rest = s.subrange(0, r1);
    assert(rest =~= head);
    lemma_rfind_dash_suffix(inst, mid);
    assert(rfind_dash(rest) == inst.len());
    assert(s.subrange(r1 + 1, s.len() as int) =~= digits);
    assert('0' as int <= digits[0] as int <= '9' as int);
    assert(digits[0] != '+');
    assert(rest.subrange(0, inst.len() as int) =~= inst);
}

} // verus!

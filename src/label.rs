use crate::graph::SodgError;
use vstd::prelude::*;
use vstd::string::{StrSliceExecFns, StringExecFns};

verus! {

/// A label in compact form: a reserved Greek symbol, an index written `α<digits>`,
/// or up to eight characters of text, padded with `'\0'`.
#[derive(PartialEq, Eq, PartialOrd, Ord, Hash, Clone, Copy, Debug)]
pub enum Label {
    Greek(char),
    Alpha(usize),
    Str([char; 8]),
}

/// The reserved symbols of system edges.
pub open spec fn is_greek(c: char) -> bool {
    c == 'ρ' || c == 'σ' || c == 'φ' || c == 'λ' || c == 'Δ' || c == 'ξ' || c == 'β' || c == 'π'
}

/// Whether `c` is a decimal digit.
pub open spec fn is_digit_char(c: char) -> bool {
    '0' <= c <= '9'
}

/// The number that a sequence of decimal digit characters writes.
pub open spec fn value(ds: Seq<char>) -> nat
    decreases ds.len(),
{
    if ds.len() == 0 {
        0
    } else {
        (value(ds.drop_last()) * 10 + (ds.last() as int - '0' as int)) as nat
    }
}

/// The digit character for `d < 10`.
pub open spec fn digit_char(d: nat) -> char {
    if d == 0 { '0' } else if d == 1 { '1' } else if d == 2 { '2' } else if d == 3 { '3' }
    else if d == 4 { '4' } else if d == 5 { '5' } else if d == 6 { '6' } else if d == 7 { '7' }
    else if d == 8 { '8' } else { '9' }
}

/// The decimal digits of `n`, without leading zeros.
pub open spec fn digits_of(n: nat) -> Seq<char>
    decreases n,
{
    if n < 10 {
        seq![digit_char(n)]
    } else {
        digits_of(n / 10).push(digit_char(n % 10))
    }
}

/// The index that a text `α<digits>` writes, if it has that shape and fits.
pub open spec fn alpha_of(t: Seq<char>) -> Option<usize> {
    if t.len() >= 2 && t[0] == 'α' && (forall|k: int| 1 <= k < t.len() ==> is_digit_char(#[trigger] t[k]))
        && value(t.skip(1)) <= usize::MAX {
        Some(value(t.skip(1)) as usize)
    } else {
        None
    }
}

/// The eight characters of a short text, padded with `'\0'`.
pub open spec fn padded(t: Seq<char>) -> Seq<char> {
    Seq::new(8, |i: int| if i < t.len() { t[i] } else { '\0' })
}

/// Whether a text stands for a label: a single reserved symbol, an index, or
/// a text of one to eight characters without `'\0'`.
pub open spec fn accepted(t: Seq<char>) -> bool {
    ||| t.len() == 1 && is_greek(t[0])
    ||| alpha_of(t) is Some
    ||| 1 <= t.len() <= 8 && (forall|k: int| 0 <= k < t.len() ==> #[trigger] t[k] != '\0')
}

/// Which label an accepted text stands for.
pub open spec fn stands_for(t: Seq<char>, l: Label) -> bool {
    if t.len() == 1 && is_greek(t[0]) {
        l == Label::Greek(t[0])
    } else if alpha_of(t) is Some {
        l == Label::Alpha(alpha_of(t)->0)
    } else {
        l is Str && l->Str_0@ == padded(t)
    }
}

/// The text of the characters of `a` before the first `'\0'`.
pub open spec fn str_text(a: Seq<char>) -> Seq<char> {
    a.take(str_len(a))
}

/// How many characters of `a` come before the first `'\0'`.
pub open spec fn str_len(a: Seq<char>) -> int {
    if exists|i: int| 0 <= i < a.len() && a[i] == '\0' && (forall|k: int| 0 <= k < i ==> #[trigger] a[k] != '\0') {
        choose|i: int| 0 <= i < a.len() && a[i] == '\0' && (forall|k: int| 0 <= k < i ==> #[trigger] a[k] != '\0')
    } else {
        a.len() as int
    }
}

impl Label {
    /// A label that some text stands for: a reserved symbol, any index, or one to
    /// eight characters padded with `'\0'` whose text reads as neither of the others.
    pub open spec fn wf(&self) -> bool {
        match self {
            Label::Greek(c) => is_greek(*c),
            Label::Alpha(_) => true,
            Label::Str(a) => {
                &&& 1 <= str_len(a@)
                &&& forall|k: int| 0 <= k < str_len(a@) ==> #[trigger] a@[k] != '\0'
                &&& forall|k: int| str_len(a@) <= k < 8 ==> #[trigger] a@[k] == '\0'
                &&& !(str_len(a@) == 1 && is_greek(a@[0]))
                &&& alpha_of(str_text(a@)) is None
            },
        }
    }

    /// The text of the label.
    pub open spec fn text_of(&self) -> Seq<char> {
        match self {
            Label::Greek(c) => seq![*c],
            Label::Alpha(n) => seq!['α'] + digits_of(*n as nat),
            Label::Str(a) => str_text(a@),
        }
    }
}


/// A digit character stands for its digit.
proof fn lemma_digit_char(d: nat)
    requires
        d < 10,
    ensures
        digit_char(d) as int - '0' as int == d,
        is_digit_char(digit_char(d)),
{
}

/// The digits of `n` write `n`, and there is at least one.
pub proof fn lemma_digits(n: nat)
    ensures
        digits_of(n).len() >= 1,
        forall|k: int| 0 <= k < digits_of(n).len() ==> is_digit_char(#[trigger] digits_of(n)[k]),
        value(digits_of(n)) == n,
    decreases n,
{
    lemma_digit_char(n % 10);
    if n < 10 {
        let ds = digits_of(n);
        assert(ds.drop_last() =~= Seq::<char>::empty());
        assert(n % 10 == n);
        assert(value(Seq::<char>::empty()) == 0);
        assert(ds.last() == digit_char(n));
        assert(value(ds) == (value(ds.drop_last()) * 10 + (ds.last() as int - '0' as int)) as nat);
    }
    if n >= 10 {
        lemma_digits(n / 10);
        let ds = digits_of(n);
        assert(ds.drop_last() =~= digits_of(n / 10));
        assert(n == (n / 10) * 10 + n % 10);
        assert(ds.last() == digit_char(n % 10));
        assert(value(ds) == (value(ds.drop_last()) * 10 + (ds.last() as int - '0' as int)) as nat);
        assert forall|k: int| 0 <= k < ds.len() implies is_digit_char(#[trigger] ds[k]) by {
            if k < ds.len() - 1 {
                assert(ds[k] == digits_of(n / 10)[k]);
            }
        }
    }
}

/// Relies on `char::to_string`: the text of that single character.
#[verifier::external_body]
fn char_text(c: char) -> (r: String)
    ensures
        r@ == seq![c],
{
    c.to_string()
}

/// The digit character for `d`.
fn digit(d: usize) -> (c: char)
    requires
        d < 10,
    ensures
        c == digit_char(d as nat),
{
    if d == 0 { '0' } else if d == 1 { '1' } else if d == 2 { '2' } else if d == 3 { '3' }
    else if d == 4 { '4' } else if d == 5 { '5' } else if d == 6 { '6' } else if d == 7 { '7' }
    else if d == 8 { '8' } else { '9' }
}

/// Appends the decimal digits of `n` to `out`.
fn push_digits(out: &mut String, n: usize)
    ensures
        final(out)@ == old(out)@ + digits_of(n as nat),
    decreases n,
{
    if n >= 10 {
        push_digits(out, n / 10);
    }
    let t = char_text(digit(n % 10));
    out.append(t.as_str());
    assert(digits_of(n as nat) =~= if n >= 10 { digits_of((n / 10) as nat).push(digit_char((n % 10) as nat)) } else { seq![digit_char(n as nat)] });
    assert(final(out)@ =~= old(out)@ + digits_of(n as nat));
}

/// A longer run of digits writes a number at least as large.
proof fn lemma_value_grows(ds: Seq<char>, k: int)
    requires
        0 <= k <= ds.len(),
        forall|i: int| 0 <= i < ds.len() ==> is_digit_char(#[trigger] ds[i]),
    ensures
        value(ds.take(k)) <= value(ds),
    decreases ds.len(),
{
    if k < ds.len() {
        assert(ds.drop_last().take(k) =~= ds.take(k));
        lemma_value_grows(ds.drop_last(), k);
    } else {
        assert(ds.take(k) =~= ds);
    }
}

/// The index that `s` writes as `α<digits>`, if it does and the index fits.
fn parse_alpha(s: &str) -> (r: Option<usize>)
    ensures
        r == alpha_of(s@),
{
    let n = s.unicode_len();
    if n < 2 || s.get_char(0) != 'α' {
        return None;
    }
    let ghost ds = s@.skip(1);
    let mut val: usize = 0;
    let mut k: usize = 1;
    while k < n
        invariant
            n == s@.len(),
            ds == s@.skip(1),
            1 <= k <= n,
            forall|i: int| 1 <= i < k ==> is_digit_char(#[trigger] s@[i]),
            val == value(ds.take(k - 1)),
        decreases n - k,
    {
        let c = s.get_char(k);
        if c < '0' || c > '9' {
            assert(!is_digit_char(s@[k as int]));
            return None;
        }
        assert(ds.take(k as int).drop_last() =~= ds.take(k - 1));
        let d = (c as u32 - '0' as u32) as usize;
        if val > (usize::MAX - d) / 10 {
            proof {
                assert(value(ds.take(k as int)) == val * 10 + d);
                assert(val * 10 + d > usize::MAX) by (nonlinear_arith)
                    requires val > (usize::MAX - d) / 10, d < 10;
            }
            let mut rest: usize = k + 1;
            while rest < n
                invariant
                    n == s@.len(),
                    1 <= k < rest <= n,
                    forall|i: int| 1 <= i < rest ==> is_digit_char(#[trigger] s@[i]),
                decreases n - rest,
            {
                if s.get_char(rest) < '0' || s.get_char(rest) > '9' {
                    assert(!is_digit_char(s@[rest as int]));
                    return None;
                }
                rest = rest + 1;
            }
            proof {
                assert forall|i: int| 0 <= i < ds.len() implies is_digit_char(#[trigger] ds[i]) by {
                    assert(ds[i] == s@[i + 1]);
                }
                lemma_value_grows(ds, k as int);
            }
            return None;
        }
        proof {
            assert(val * 10 + d <= usize::MAX) by (nonlinear_arith)
                requires val <= (usize::MAX - d) / 10, d < 10;
        }
        val = val * 10 + d;
        k = k + 1;
    }
    assert(ds.take(n - 1) =~= ds);
    Some(val)
}

impl Label {
    /// The label that text `s` stands for; a text that stands for none is refused.
    pub fn from_text(s: &str) -> (r: Result<Label, SodgError>)
        ensures
            r is Ok <==> accepted(s@),
            r is Ok ==> stands_for(s@, r->Ok_0),
            r is Ok ==> r->Ok_0.wf(),
            r is Err ==> r->Err_0 is InvalidArgument,
    {
        let n = s.unicode_len();
        if n == 0 {
            return Err(SodgError::InvalidArgument);
        }
        let c0 = s.get_char(0);
        if n == 1 && (c0 == 'ρ' || c0 == 'σ' || c0 == 'φ' || c0 == 'λ' || c0 == 'Δ' || c0 == 'ξ' || c0 == 'β' || c0 == 'π') {
            return Ok(Label::Greek(c0));
        }
        match parse_alpha(s) {
            Some(v) => {
                return Ok(Label::Alpha(v));
            },
            None => {},
        }
        if n > 8 {
            return Err(SodgError::InvalidArgument);
        }
        let mut a: [char; 8] = ['\0'; 8];
        let mut i: usize = 0;
        while i < n
            invariant
                n == s@.len(),
                n <= 8,
                i <= n,
                forall|k: int| 0 <= k < i ==> #[trigger] s@[k] != '\0',
                forall|k: int| 0 <= k < 8 ==> #[trigger] a@[k] == if k < i { s@[k] } else { '\0' },
            decreases n - i,
        {
            let c = s.get_char(i);
            if c == '\0' {
                return Err(SodgError::InvalidArgument);
            }
            a[i] = c;
            i = i + 1;
        }
        assert(a@ =~= padded(s@));
        proof {
            lemma_str_len(a@, n as int);
            assert(str_text(a@) =~= s@);
        }
        Ok(Label::Str(a))
    }

    /// The text of the label.
    pub fn text(&self) -> (r: String)
        ensures
            r@ == self.text_of(),
    {
        match self {
            Label::Greek(c) => char_text(*c),
            Label::Alpha(n) => {
                let mut out = char_text('α');
                push_digits(&mut out, *n);
                out
            },
            Label::Str(a) => {
                let mut out = String::new();
                let mut i: usize = 0;
                while i < 8 && a[i] != '\0'
                    invariant
                        i <= 8,
                        forall|k: int| 0 <= k < i ==> #[trigger] a@[k] != '\0',
                        out@ == a@.take(i as int),
                    decreases 8 - i,
                {
                    let t = char_text(a[i]);
                    out.append(t.as_str());
                    i = i + 1;
                    assert(out@ =~= a@.take(i as int));
                }
                proof {
                    lemma_str_len(a@, i as int);
                }
                out
            },
        }
    }
}

/// The first `'\0'` of `a`, or its end, is where its text stops.
proof fn lemma_str_len(a: Seq<char>, i: int)
    requires
        0 <= i <= a.len(),
        forall|k: int| 0 <= k < i ==> #[trigger] a[k] != '\0',
        i == a.len() || a[i] == '\0',
    ensures
        str_len(a) == i,
{
    if exists|j: int| 0 <= j < a.len() && a[j] == '\0' && (forall|k: int| 0 <= k < j ==> #[trigger] a[k] != '\0') {
        let j = choose|j: int| 0 <= j < a.len() && a[j] == '\0' && (forall|k: int| 0 <= k < j ==> #[trigger] a[k] != '\0');
        if j < i {
            assert(a[j] != '\0');
        } else if i < j {
            assert(a[i] != '\0');
        }
    } else {
        if i < a.len() {
            assert(a[i] == '\0' && (forall|k: int| 0 <= k < i ==> #[trigger] a[k] != '\0'));
        }
    }
}

} // verus!

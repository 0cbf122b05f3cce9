//! Character-level building blocks of the wire format: whitespace-separated
//! header fields, decimal numbers, and payload escaping.

use vstd::prelude::*;
use vstd::string::StrSliceExecFns;

verus! {

/// The header of a line, split into its whitespace-separated fields.
///
/// Defined by how one more character extends the split: a separator closes
/// the current field, a non-separator either extends an open field or opens
/// a new one.
pub open spec fn tokens_of(s: Seq<char>) -> Seq<Seq<char>>
    decreases s.len(),
{
    if s.len() == 0 {
        Seq::empty()
    } else {
        let pre = s.drop_last();
        let rest = tokens_of(pre);
        let c = s.last();
        if crate::spec_is_space(c) {
            rest
        } else if pre.len() > 0 && !crate::spec_is_space(pre.last()) {
            rest.update(rest.len() - 1, rest.last().push(c))
        } else {
            rest.push(seq![c])
        }
    }
}

/// A field value that survives the wire format unchanged: non-empty, free of
/// separators (it would split) and of the payload marker (it would cut the
/// header short).
pub open spec fn is_token(s: Seq<char>) -> bool {
    s.len() > 0 && forall|i: int| 0 <= i < s.len() ==> !crate::spec_is_space(s[i]) && s[i] != '%'
}

/// Appending a separator leaves the fields as they are.
pub proof fn lemma_tokens_append_space(x: Seq<char>, c: char)
    requires
        crate::spec_is_space(c),
    ensures
        tokens_of(x.push(c)) == tokens_of(x),
{
    assert(x.push(c).drop_last() =~= x);
}

/// Appending a whole field after a separator (or at the start) adds exactly
/// that field.
pub proof fn lemma_tokens_append_token(x: Seq<char>, t: Seq<char>)
    requires
        t.len() > 0,
        forall|i: int| 0 <= i < t.len() ==> !crate::spec_is_space(t[i]),
        x.len() == 0 || crate::spec_is_space(x.last()),
    ensures
        tokens_of(x + t) == tokens_of(x).push(t),
    decreases t.len(),
{
    let s = x + t;
    assert(s.drop_last() =~= x + t.drop_last());
    if t.len() == 1 {
        assert(s.drop_last() =~= x);
        assert(tokens_of(s) == tokens_of(x).push(seq![t[0]]));
        assert(seq![t[0]] =~= t);
    } else {
        lemma_tokens_append_token(x, t.drop_last());
        let rest = tokens_of(x + t.drop_last());
        assert(rest == tokens_of(x).push(t.drop_last()));
        assert(s.last() == t.last());
        assert(s.drop_last().last() == t[t.len() - 2]);
        assert(!crate::spec_is_space(s.drop_last().last()));
        assert(tokens_of(s) == rest.update(rest.len() - 1, rest.last().push(t.last())));
        assert(rest.last() == t.drop_last());
        assert(t.drop_last().push(t.last()) =~= t);
        assert(rest.update(rest.len() - 1, t) =~= tokens_of(x).push(t));
    }
}

// ---------------------------------------------------------------------------
// Decimal numbers
// ---------------------------------------------------------------------------

pub open spec fn spec_is_digit(c: char) -> bool {
    48 <= c as u32 && c as u32 <= 57
}

/// Value of a digit character; zero for anything else, so that `dec_val`
/// stays total (it is only meaningful under `all_digits`).
pub open spec fn digit_val(c: char) -> nat {
    if spec_is_digit(c) {
        (c as u32 - 48) as nat
    } else {
        0
    }
}

pub open spec fn char_of_digit(d: nat) -> char {
    (((d + 48) as u8) as char)
}

pub open spec fn all_digits(s: Seq<char>) -> bool {
    forall|i: int| 0 <= i < s.len() ==> spec_is_digit(s[i])
}

/// The number a digit string denotes.
pub open spec fn dec_val(s: Seq<char>) -> nat
    decreases s.len(),
{
    if s.len() == 0 {
        0
    } else {
        dec_val(s.drop_last()) * 10 + digit_val(s.last())
    }
}

/// How the codec reads a decimal header field: digits only, and the value
/// must fit in a `u32`.
pub open spec fn spec_parse_u32(s: Seq<char>) -> Option<u32> {
    if s.len() == 0 || !all_digits(s) || dec_val(s) > u32::MAX {
        None
    } else {
        Some(dec_val(s) as u32)
    }
}

/// Shortest decimal rendering of `n`.
pub open spec fn dec_str(n: nat) -> Seq<char>
    decreases n,
{
    if n < 10 {
        seq![char_of_digit(n)]
    } else {
        dec_str(n / 10).push(char_of_digit(n % 10))
    }
}

pub open spec fn zeros(k: nat) -> Seq<char>
    decreases k,
{
    if k == 0 {
        Seq::empty()
    } else {
        zeros((k - 1) as nat).push('0')
    }
}

/// `n` rendered in decimal, left-padded with zeros to at least eight digits:
/// the fixed-width part index of the wire format.
pub open spec fn pad8(n: nat) -> Seq<char> {
    if dec_str(n).len() >= 8 {
        dec_str(n)
    } else {
        zeros((8 - dec_str(n).len()) as nat) + dec_str(n)
    }
}

pub proof fn lemma_dec_str_digits(n: nat)
    ensures
        dec_str(n).len() >= 1,
        all_digits(dec_str(n)),
        dec_val(dec_str(n)) == n,
    decreases n,
{
    if n < 10 {
        lemma_char_of_digit(n);
        assert(dec_str(n).drop_last() =~= Seq::<char>::empty());
        assert(dec_val(Seq::<char>::empty()) == 0);
        assert(dec_str(n).last() == char_of_digit(n));
        assert(dec_val(dec_str(n)) == dec_val(dec_str(n).drop_last()) * 10 + digit_val(
            dec_str(n).last(),
        ));
    } else {
        lemma_dec_str_digits(n / 10);
        lemma_char_of_digit(n % 10);
        assert(dec_str(n).drop_last() =~= dec_str(n / 10));
        vstd::arithmetic::div_mod::lemma_fundamental_div_mod(n as int, 10);
    }
}

/// The cast chain from a digit value to its character and back is exact.
pub proof fn lemma_char_of_digit(d: nat)
    requires
        d < 10,
    ensures
        spec_is_digit(char_of_digit(d)),
        digit_val(char_of_digit(d)) == d,
        char_of_digit(d) != '%',
        !crate::spec_is_space(char_of_digit(d)),
{
    assert(char_of_digit(d) as u32 == d + 48);
}

/// At most `k` digits are needed below `pow10(k)`.
pub proof fn lemma_dec_str_len(n: nat, k: nat)
    requires
        k >= 1,
        n < pow10(k),
    ensures
        dec_str(n).len() <= k,
    decreases n,
{
    if n >= 10 {
        if k == 1 {
            assert(pow10(1) == 10) by {
                reveal_with_fuel(pow10, 2);
            }
            assert(false);
        }
        vstd::arithmetic::div_mod::lemma_fundamental_div_mod(n as int, 10);
        assert(pow10(k) == pow10((k - 1) as nat) * 10);
        assert(n / 10 < pow10((k - 1) as nat)) by (nonlinear_arith)
            requires
                n as int == 10 * (n as int / 10) + n as int % 10,
                n as int % 10 >= 0,
                n < pow10(k),
                pow10(k) == pow10((k - 1) as nat) * 10,
        ;
        lemma_dec_str_len(n / 10, (k - 1) as nat);
        assert(dec_str(n).len() == dec_str(n / 10).len() + 1);
    }
}

/// Eight digits suffice for any part index the library produces.
pub proof fn lemma_dec_str_len8(n: nat)
    requires
        n < 100000000,
    ensures
        dec_str(n).len() <= 8,
{
    assert(pow10(8) == 100000000) by {
        reveal_with_fuel(pow10, 9);
    }
    lemma_dec_str_len(n, 8);
}

pub open spec fn pow10(k: nat) -> nat
    decreases k,
{
    if k == 0 {
        1
    } else {
        pow10((k - 1) as nat) * 10
    }
}

pub proof fn lemma_zeros(k: nat)
    ensures
        zeros(k).len() == k,
        forall|i: int| 0 <= i < k ==> zeros(k)[i] == '0',
    decreases k,
{
    if k > 0 {
        lemma_zeros((k - 1) as nat);
    }
}

/// Leading zeros do not change the value a digit string denotes.
pub proof fn lemma_dec_val_leading_zeros(k: nat, s: Seq<char>)
    ensures
        dec_val(zeros(k) + s) == dec_val(s),
    decreases s.len(),
{
    if s.len() == 0 {
        assert(zeros(k) + s =~= zeros(k));
        lemma_dec_val_zeros(k);
    } else {
        lemma_dec_val_leading_zeros(k, s.drop_last());
        assert((zeros(k) + s).drop_last() =~= zeros(k) + s.drop_last());
        assert((zeros(k) + s).last() == s.last());
    }
}

proof fn lemma_dec_val_zeros(k: nat)
    ensures
        dec_val(zeros(k)) == 0,
    decreases k,
{
    if k > 0 {
        lemma_dec_val_zeros((k - 1) as nat);
        assert(zeros(k).drop_last() =~= zeros((k - 1) as nat));
        assert(digit_val('0') == 0);
    }
}

pub proof fn lemma_pad8(n: nat)
    requires
        n < 100000000,
    ensures
        pad8(n).len() == 8,
        all_digits(pad8(n)),
        dec_val(pad8(n)) == n,
        spec_parse_u32(pad8(n)) == Some(n as u32),
    decreases n,
{
    lemma_dec_str_digits(n);
    lemma_dec_str_len8(n);
    let k = (8 - dec_str(n).len()) as nat;
    lemma_zeros(k);
    lemma_dec_val_leading_zeros(k, dec_str(n));
    assert forall|i: int| 0 <= i < pad8(n).len() implies spec_is_digit(pad8(n)[i]) by {
        if i < k {
            assert(pad8(n)[i] == '0');
        } else {
            assert(pad8(n)[i] == dec_str(n)[i - k]);
        }
    }
}

/// The value of a digit string only grows as more digits follow.
pub proof fn lemma_dec_val_prefix_le(s: Seq<char>, j: int)
    requires
        0 <= j <= s.len(),
    ensures
        dec_val(s.take(j)) <= dec_val(s),
    decreases s.len(),
{
    if j < s.len() {
        assert(s.drop_last().take(j) =~= s.take(j));
        lemma_dec_val_prefix_le(s.drop_last(), j);
        assert(dec_val(s) == dec_val(s.drop_last()) * 10 + digit_val(s.last()));
        assert(dec_val(s.drop_last()) * 10 >= dec_val(s.drop_last())) by (nonlinear_arith);
    } else {
        assert(s.take(j) =~= s);
    }
}

// ---------------------------------------------------------------------------
// Payload escaping
// ---------------------------------------------------------------------------

/// How one payload character appears on the wire: characters that would
/// break single-line framing (and the escape character itself) become
/// two-character sequences.
pub open spec fn esc_char(c: char) -> Seq<char> {
    if c == '\\' {
        seq!['\\', '\\']
    } else if c == '\n' {
        seq!['\\', 'n']
    } else if c == '\r' {
        seq!['\\', 'r']
    } else {
        seq![c]
    }
}

pub open spec fn escape(s: Seq<char>) -> Seq<char>
    decreases s.len(),
{
    if s.len() == 0 {
        Seq::empty()
    } else {
        esc_char(s[0]) + escape(s.drop_first())
    }
}

pub open spec fn unesc_char(c: char) -> char {
    if c == 'n' {
        '\n'
    } else if c == 'r' {
        '\r'
    } else {
        '\\'
    }
}

/// Inverse of [`escape`]: a recognised two-character sequence becomes one
/// character; anything else is taken literally.
pub open spec fn unescape(s: Seq<char>) -> Seq<char>
    decreases s.len(),
{
    if s.len() == 0 {
        Seq::empty()
    } else if s[0] == '\\' && s.len() >= 2 && (s[1] == '\\' || s[1] == 'n' || s[1] == 'r') {
        seq![unesc_char(s[1])] + unescape(s.skip(2))
    } else {
        seq![s[0]] + unescape(s.skip(1))
    }
}

pub proof fn lemma_escape_append(a: Seq<char>, b: Seq<char>)
    ensures
        escape(a + b) == escape(a) + escape(b),
    decreases a.len(),
{
    if a.len() == 0 {
        assert(a + b =~= b);
        assert(escape(a) + escape(b) =~= escape(b));
    } else {
        lemma_escape_append(a.drop_first(), b);
        let s = a + b;
        assert(s.len() > 0 && s[0] == a[0]);
        assert(s.drop_first() =~= a.drop_first() + b);
        assert(esc_char(a[0]) + (escape(a.drop_first()) + escape(b)) =~= (esc_char(a[0])
            + escape(a.drop_first())) + escape(b));
    }
}

/// Escaping round-trips: decode's unescape undoes encode's escape.
pub proof fn lemma_unescape_escape(s: Seq<char>)
    ensures
        unescape(escape(s)) == s,
    decreases s.len(),
{
    if s.len() > 0 {
        lemma_unescape_escape(s.drop_first());
        let e = escape(s);
        let c = s[0];
        if c == '\\' || c == '\n' || c == '\r' {
            assert(e.len() >= 2 && e[0] == '\\');
            assert(e[1] == esc_char(c)[1]);
            assert(e.skip(2) =~= escape(s.drop_first()));
            assert(unesc_char(e[1]) == c);
            assert(seq![c] + s.drop_first() =~= s);
        } else {
            assert(e[0] == c && c != '\\');
            assert(e.skip(1) =~= escape(s.drop_first()));
            assert(seq![c] + s.drop_first() =~= s);
        }
    }
}

/// No character of an escaped payload is a line terminator.
pub proof fn lemma_escape_no_newline(s: Seq<char>)
    ensures
        forall|i: int|
            0 <= i < escape(s).len() ==> escape(s)[i] != '\n' && escape(s)[i] != '\r',
    decreases s.len(),
{
    if s.len() > 0 {
        lemma_escape_no_newline(s.drop_first());
        let e = esc_char(s[0]);
        let rest = escape(s.drop_first());
        assert forall|i: int|
            0 <= i < escape(s).len() implies escape(s)[i] != '\n' && escape(s)[i] != '\r' by {
            if i < e.len() {
                assert(escape(s)[i] == e[i]);
            } else {
                assert(escape(s)[i] == rest[i - e.len()]);
            }
        }
    }
}

// ---------------------------------------------------------------------------
// The payload marker
// ---------------------------------------------------------------------------

/// Position of the first payload marker in `s`, or `s.len()` if there is
/// none.
pub open spec fn pct_pos(s: Seq<char>) -> nat
    decreases s.len(),
{
    if s.len() == 0 {
        0
    } else if s[0] == '%' {
        0
    } else {
        1 + pct_pos(s.drop_first())
    }
}

pub proof fn lemma_pct_pos_none(s: Seq<char>)
    requires
        forall|j: int| 0 <= j < s.len() ==> s[j] != '%',
    ensures
        pct_pos(s) == s.len(),
    decreases s.len(),
{
    if s.len() > 0 {
        lemma_pct_pos_none(s.drop_first());
    }
}

pub proof fn lemma_pct_pos_first(s: Seq<char>, i: int)
    requires
        0 <= i < s.len(),
        forall|j: int| 0 <= j < i ==> s[j] != '%',
        s[i] == '%',
    ensures
        pct_pos(s) == i,
    decreases i,
{
    if i > 0 {
        lemma_pct_pos_first(s.drop_first(), i - 1);
    }
}

// ---------------------------------------------------------------------------
// Executable counterparts
// ---------------------------------------------------------------------------

/// The fields of `ts`, as sequences of characters.
pub open spec fn token_views(ts: Seq<Vec<char>>) -> Seq<Seq<char>> {
    Seq::new(ts.len(), |i: int| ts[i]@)
}

/// A field that ends the string is still open: the split is non-empty.
pub proof fn lemma_tokens_last_open(s: Seq<char>)
    requires
        s.len() > 0,
        !crate::spec_is_space(s.last()),
    ensures
        tokens_of(s).len() >= 1,
    decreases s.len(),
{
    let pre = s.drop_last();
    if pre.len() > 0 && !crate::spec_is_space(pre.last()) {
        lemma_tokens_last_open(pre);
    }
}

/// Splits `v` into its whitespace-separated fields.
pub fn tokenize(v: &Vec<char>) -> (r: Vec<Vec<char>>)
    ensures
        token_views(r@) == tokens_of(v@),
{
    let mut toks: Vec<Vec<char>> = Vec::new();
    let mut i: usize = 0;
    while i < v.len()
        invariant
            i <= v@.len(),
            token_views(toks@) == tokens_of(v@.take(i as int)),
        decreases v@.len() - i,
    {
        let c = v[i];
        proof {
            assert(v@.take((i + 1) as int).drop_last() =~= v@.take(i as int));
            assert(v@.take((i + 1) as int).last() == v@[i as int]);
        }
        if crate::is_space(c) {
        } else if i > 0 && !crate::is_space(v[i - 1]) {
            proof {
                assert(v@.take(i as int).last() == v@[i as int - 1]);
                lemma_tokens_last_open(v@.take(i as int));
                assert(toks@.len() == token_views(toks@).len());
            }
            let mut t = toks.pop().unwrap();
            t.push(c);
            toks.push(t);
            proof {
                assert(token_views(toks@) =~= tokens_of(v@.take((i + 1) as int)));
            }
        } else {
            let mut t: Vec<char> = Vec::new();
            t.push(c);
            toks.push(t);
            proof {
                assert(t@ =~= seq![v@[i as int]]);
                assert(token_views(toks@) =~= tokens_of(v@.take((i + 1) as int)));
            }
        }
        i += 1;
    }
    proof {
        assert(v@.take(v@.len() as int) =~= v@);
    }
    toks
}

/// Index of the first payload marker, or the length if there is none.
pub fn find_pct(v: &Vec<char>) -> (r: usize)
    ensures
        r == pct_pos(v@),
        r <= v@.len(),
{
    let mut i: usize = 0;
    while i < v.len()
        invariant
            i <= v@.len(),
            forall|j: int| 0 <= j < i ==> v@[j] != '%',
        decreases v@.len() - i,
    {
        if v[i] == '%' {
            proof {
                lemma_pct_pos_first(v@, i as int);
            }
            return i;
        }
        i += 1;
    }
    proof {
        lemma_pct_pos_none(v@);
    }
    i
}

/// The characters of `v` from `a` (inclusive) to `b` (exclusive).
pub fn sub_vec(v: &Vec<char>, a: usize, b: usize) -> (r: Vec<char>)
    requires
        a <= b <= v@.len(),
    ensures
        r@ == v@.subrange(a as int, b as int),
{
    let mut r: Vec<char> = Vec::new();
    let mut i: usize = a;
    while i < b
        invariant
            a <= i <= b <= v@.len(),
            r@ == v@.subrange(a as int, i as int),
        decreases b - i,
    {
        r.push(v[i]);
        i += 1;
        proof {
            assert(v@.subrange(a as int, i as int) =~= v@.subrange(a as int, i - 1).push(
                v@[i - 1],
            ));
        }
    }
    r
}

/// Reads a decimal `u32` field exactly as [`spec_parse_u32`] does.
pub fn parse_u32_chars(t: &Vec<char>) -> (r: Option<u32>)
    ensures
        r == spec_parse_u32(t@),
{
    if t.len() == 0 {
        return None;
    }
    let mut acc: u64 = 0;
    let mut i: usize = 0;
    while i < t.len()
        invariant
            0 < t@.len(),
            i <= t@.len(),
            forall|j: int| 0 <= j < i ==> spec_is_digit(t@[j]),
            acc == dec_val(t@.take(i as int)),
            acc <= u32::MAX,
        decreases t@.len() - i,
    {
        let c = t[i];
        let cu = c as u32;
        if cu < 48 || cu > 57 {
            proof {
                assert(!spec_is_digit(t@[i as int]));
            }
            return None;
        }
        let d = (cu - 48) as u64;
        proof {
            assert(t@.take((i + 1) as int).drop_last() =~= t@.take(i as int));
            assert(t@.take((i + 1) as int).last() == t@[i as int]);
            assert(digit_val(t@[i as int]) == d);
        }
        let next = acc * 10 + d;
        if next > 0xFFFF_FFFF {
            proof {
                assert(dec_val(t@.take((i + 1) as int)) == next);
                lemma_dec_val_prefix_le(t@, (i + 1) as int);
            }
            return None;
        }
        acc = next;
        i += 1;
    }
    proof {
        assert(t@.take(t@.len() as int) =~= t@);
    }
    Some(acc as u32)
}

/// The character for digit value `d`.
pub fn digit_char(d: u32) -> (c: char)
    requires
        d < 10,
    ensures
        c == char_of_digit(d as nat),
{
    ((d + 48) as u8) as char
}

/// Renders `n` in decimal, shortest form.
pub fn u32_to_chars(n: u32) -> (v: Vec<char>)
    ensures
        v@ == dec_str(n as nat),
    decreases n,
{
    if n < 10 {
        let mut v: Vec<char> = Vec::new();
        v.push(digit_char(n));
        proof {
            assert(v@ =~= seq![char_of_digit(n as nat)]);
        }
        v
    } else {
        let mut v = u32_to_chars(n / 10);
        v.push(digit_char(n % 10));
        v
    }
}

/// Renders `n` as the fixed-width part index field.
pub fn pad8_chars(n: u32) -> (v: Vec<char>)
    ensures
        v@ == pad8(n as nat),
{
    let ds = u32_to_chars(n);
    if ds.len() >= 8 {
        return ds;
    }
    let k = 8 - ds.len();
    let mut v: Vec<char> = Vec::new();
    let mut i: usize = 0;
    while i < k
        invariant
            i <= k,
            v@ == zeros(i as nat),
        decreases k - i,
    {
        v.push('0');
        i += 1;
        proof {
            assert(zeros(i as nat) =~= zeros((i - 1) as nat).push('0'));
        }
    }
    let mut j: usize = 0;
    while j < ds.len()
        invariant
            j <= ds@.len(),
            v@ == zeros(k as nat) + ds@.take(j as int),
        decreases ds@.len() - j,
    {
        v.push(ds[j]);
        j += 1;
        proof {
            assert(zeros(k as nat) + ds@.take(j as int) =~= (zeros(k as nat) + ds@.take(j - 1)).push(
                ds@[j - 1],
            ));
        }
    }
    proof {
        assert(ds@.take(ds@.len() as int) =~= ds@);
    }
    v
}

/// Escapes a payload for the wire, exactly as [`escape`] says.
pub fn escape_chars(p: &Vec<char>) -> (v: Vec<char>)
    ensures
        v@ == escape(p@),
{
    let mut v: Vec<char> = Vec::new();
    let mut i: usize = 0;
    while i < p.len()
        invariant
            i <= p@.len(),
            v@ == escape(p@.take(i as int)),
        decreases p@.len() - i,
    {
        let c = p[i];
        if c == '\\' {
            v.push('\\');
            v.push('\\');
        } else if c == '\n' {
            v.push('\\');
            v.push('n');
        } else if c == '\r' {
            v.push('\\');
            v.push('r');
        } else {
            v.push(c);
        }
        i += 1;
        proof {
            let pre = p@.take(i - 1);
            let one = seq![p@[i - 1]];
            lemma_escape_append(pre, one);
            assert(p@.take(i as int) =~= pre + one);
            assert(one.drop_first() =~= Seq::<char>::empty());
            assert(escape(one) == esc_char(p@[i - 1]) + escape(Seq::<char>::empty()));
            assert(escape(one) =~= esc_char(p@[i - 1]));
            assert(v@ =~= escape(pre) + esc_char(p@[i - 1]));
        }
    }
    proof {
        assert(p@.take(p@.len() as int) =~= p@);
    }
    v
}

/// Unescapes a received payload, exactly as [`unescape`] says.
pub fn unescape_chars(raw: &Vec<char>) -> (v: Vec<char>)
    ensures
        v@ == unescape(raw@),
{
    let mut v: Vec<char> = Vec::new();
    let mut i: usize = 0;
    proof {
        assert(raw@.skip(0) =~= raw@);
        assert(Seq::<char>::empty() + unescape(raw@) =~= unescape(raw@));
    }
    while i < raw.len()
        invariant
            i <= raw@.len(),
            unescape(raw@) == v@ + unescape(raw@.skip(i as int)),
        decreases raw@.len() - i,
    {
        let c = raw[i];
        let ghost s = raw@.skip(i as int);
        proof {
            assert(s[0] == raw@[i as int]);
        }
        if c == '\\' && i + 1 < raw.len() && (raw[i + 1] == '\\' || raw[i + 1] == 'n' || raw[i + 1]
            == 'r') {
            let u = if raw[i + 1] == 'n' {
                '\n'
            } else if raw[i + 1] == 'r' {
                '\r'
            } else {
                '\\'
            };
            proof {
                assert(s[1] == raw@[i + 1]);
                assert(s.skip(2) =~= raw@.skip(i + 2));
                assert(unescape(s) == seq![unesc_char(s[1])] + unescape(s.skip(2)));
                assert(u == unesc_char(s[1]));
                assert(v@.push(u) + unescape(raw@.skip(i + 2)) =~= v@ + unescape(s));
            }
            v.push(u);
            i += 2;
        } else {
            proof {
                assert(s.skip(1) =~= raw@.skip(i + 1));
                assert(unescape(s) == seq![s[0]] + unescape(s.skip(1)));
                assert(v@.push(c) + unescape(raw@.skip(i + 1)) =~= v@ + unescape(s));
            }
            v.push(c);
            i += 1;
        }
    }
    proof {
        assert(raw@.skip(raw@.len() as int) =~= Seq::<char>::empty());
        assert(v@ + Seq::<char>::empty() =~= v@);
    }
    v
}

/// Relies on `String::push`: appends exactly the one character.
#[verifier::external_body]
pub fn push_char(s: &mut String, c: char)
    ensures
        final(s)@ == old(s)@.push(c),
{
    s.push(c);
}

/// Builds a `String` from its characters.
pub fn chars_to_string(v: &Vec<char>) -> (s: String)
    ensures
        s@ == v@,
{
    let mut s = String::new();
    let mut i: usize = 0;
    while i < v.len()
        invariant
            i <= v@.len(),
            s@ == v@.take(i as int),
        decreases v@.len() - i,
    {
        push_char(&mut s, v[i]);
        i += 1;
        proof {
            assert(v@.take(i as int) =~= v@.take(i - 1).push(v@[i - 1]));
        }
    }
    proof {
        assert(v@.take(v@.len() as int) =~= v@);
    }
    s
}

/// The characters of `s`, as a vector.
pub fn str_to_chars(s: &str) -> (v: Vec<char>)
    ensures
        v@ == s@,
{
    let n = s.unicode_len();
    let mut v: Vec<char> = Vec::new();
    let mut i: usize = 0;
    while i < n
        invariant
            n == s@.len(),
            i <= n,
            v@ == s@.take(i as int),
        decreases n - i,
    {
        v.push(s.get_char(i));
        i += 1;
        proof {
            assert(s@.take(i as int) =~= s@.take(i - 1).push(s@[i - 1]));
        }
    }
    proof {
        assert(s@.take(s@.len() as int) =~= s@);
    }
    v
}

/// Appends the characters of `s` to `out`.
pub fn push_str_chars(out: &mut Vec<char>, s: &str)
    ensures
        final(out)@ == old(out)@ + s@,
{
    let n = s.unicode_len();
    let mut i: usize = 0;
    while i < n
        invariant
            n == s@.len(),
            i <= n,
            out@ == old(out)@ + s@.take(i as int),
        decreases n - i,
    {
        out.push(s.get_char(i));
        i += 1;
        proof {
            assert(old(out)@ + s@.take(i as int) =~= (old(out)@ + s@.take(i - 1)).push(s@[i - 1]));
        }
    }
    proof {
        assert(s@.take(s@.len() as int) =~= s@);
        assert(old(out)@ + s@.take(s@.len() as int) =~= old(out)@ + s@);
    }
}

} // verus!

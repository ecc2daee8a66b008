//! Sort keys of image file names.
//!
//! File names are handled as their UTF-8 bytes. Every byte that matters here
//! (`.`, the ASCII digits and letters) is ASCII, and ASCII bytes never occur
//! inside the encoding of another character, so working on bytes gives the
//! same answers as working on characters.
use vstd::prelude::*;

verus! {

/// Width of a numeric sort key.
pub const KEY_WIDTH: u32 = 10;

pub open spec fn is_digit(b: u8) -> bool {
    48 <= b && b <= 57
}

/// Index of the last `.` in `s`, or -1 when there is none.
pub open spec fn last_dot(s: Seq<u8>) -> int
    decreases s.len(),
{
    if s.len() == 0 {
        -1
    } else if s.last() == 46u8 {
        s.len() - 1
    } else {
        last_dot(s.drop_last())
    }
}

/// The stem of a file name: the name without its extension. A leading dot
/// starts no extension (`.png` is a stem).
pub open spec fn stem_of(name: Seq<u8>) -> Seq<u8> {
    if last_dot(name) <= 0 {
        name
    } else {
        name.subrange(0, last_dot(name))
    }
}

/// The extension of a file name: what follows its last dot, if that dot is
/// not the first byte.
pub open spec fn extension_of(name: Seq<u8>) -> Option<Seq<u8>> {
    if last_dot(name) <= 0 {
        None
    } else {
        Some(name.subrange(last_dot(name) + 1, name.len() as int))
    }
}

/// The ASCII digits of `s`, in the order they appear.
pub open spec fn digits_of(s: Seq<u8>) -> Seq<u8>
    decreases s.len(),
{
    if s.len() == 0 {
        Seq::empty()
    } else if is_digit(s.last()) {
        digits_of(s.drop_last()).push(s.last())
    } else {
        digits_of(s.drop_last())
    }
}

/// The number that a string of decimal digits denotes (leading zeros allowed).
pub open spec fn digits_value(d: Seq<u8>) -> nat
    decreases d.len(),
{
    if d.len() == 0 {
        0
    } else {
        digits_value(d.drop_last()) * 10 + (d.last() as int - 48) as nat
    }
}

/// `n` written in decimal on exactly `width` digits, keeping the lowest ones.
pub open spec fn padded_decimal(n: nat, width: nat) -> Seq<u8>
    decreases width,
{
    if width == 0 {
        Seq::empty()
    } else {
        padded_decimal(n / 10, (width - 1) as nat).push((48 + n % 10) as u8)
    }
}

/// The numeric sort key of a stem: its digits read as a number that fits in
/// 32 bits, zero-padded to ten digits; none when the stem has no digits or
/// their number is too large.
pub open spec fn numeric_key(stem: Seq<u8>) -> Option<Seq<u8>> {
    let d = digits_of(stem);
    if d.len() > 0 && digits_value(d) <= u32::MAX {
        Some(padded_decimal(digits_value(d), KEY_WIDTH as nat))
    } else {
        None
    }
}

/// The sort key of a file name: its numeric key, else the name itself.
pub open spec fn sort_key(name: Seq<u8>) -> Seq<u8> {
    match numeric_key(stem_of(name)) {
        Some(k) => k,
        None => name,
    }
}

/// Byte-wise lexicographic order, as `str` and `[u8]` compare.
pub open spec fn bytes_lt(a: Seq<u8>, b: Seq<u8>) -> bool
    decreases a.len(),
{
    if a.len() == 0 {
        b.len() > 0
    } else if b.len() == 0 {
        false
    } else if a[0] != b[0] {
        a[0] < b[0]
    } else {
        bytes_lt(a.drop_first(), b.drop_first())
    }
}

pub open spec fn ascii_lower(b: u8) -> u8 {
    if 65 <= b && b <= 90 {
        (b + 32) as u8
    } else {
        b
    }
}

pub open spec fn lower_seq(s: Seq<u8>) -> Seq<u8> {
    s.map_values(|b: u8| ascii_lower(b))
}

proof fn lemma_last_dot_bounds(s: Seq<u8>)
    ensures
        -1 <= last_dot(s) < s.len(),
    decreases s.len(),
{
    if s.len() > 0 {
        lemma_last_dot_bounds(s.drop_last());
    }
}

/// Position of the last dot of `name`, if there is one.
pub fn find_last_dot(name: &[u8]) -> (r: Option<usize>)
    ensures
        match r {
            Some(k) => k == last_dot(name@) && k < name@.len(),
            None => last_dot(name@) == -1,
        },
{
    proof {
        lemma_last_dot_bounds(name@);
    }
    let mut i: usize = name.len();
    assert(name@.subrange(0, i as int) =~= name@);
    while i > 0
        invariant
            i <= name@.len(),
            last_dot(name@) == last_dot(name@.subrange(0, i as int)),
        decreases i,
    {
        let ghost s = name@.subrange(0, i as int);
        assert(s.drop_last() =~= name@.subrange(0, i - 1));
        if name[i - 1] == 46u8 {
            return Some(i - 1);
        }
        i = i - 1;
    }
    assert(name@.subrange(0, 0) =~= Seq::<u8>::empty());
    None
}

/// Appends `n` in decimal on `width` digits to `out`.
pub fn push_padded_decimal(out: &mut Vec<u8>, n: u32, width: u32)
    ensures
        final(out)@ == old(out)@ + padded_decimal(n as nat, width as nat),
    decreases width,
{
    if width > 0 {
        push_padded_decimal(out, n / 10, width - 1);
        out.push(48 + (n % 10) as u8);
        assert(final(out)@ =~= old(out)@ + padded_decimal(n as nat, width as nat));
    } else {
        assert(final(out)@ =~= old(out)@ + padded_decimal(n as nat, width as nat));
    }
}

/// The extensions of the image files that are taken in, in lower case:
/// `jpg`, `jpeg`, `png` and `webp`.
pub open spec fn supported_extensions() -> Seq<Seq<u8>> {
    seq![
        seq![106u8, 112u8, 103u8],
        seq![106u8, 112u8, 101u8, 103u8],
        seq![112u8, 110u8, 103u8],
        seq![119u8, 101u8, 98u8, 112u8],
    ]
}

/// Whether a file name has a supported extension, in any ASCII case.
pub open spec fn is_image_name(name: Seq<u8>) -> bool {
    match extension_of(name) {
        Some(e) => supported_extensions().contains(lower_seq(e)),
        None => false,
    }
}

/// Whether `a` is less than `b` in byte-wise lexicographic order.
pub fn bytes_less(a: &[u8], b: &[u8]) -> (r: bool)
    ensures
        r == bytes_lt(a@, b@),
{
    let mut i: usize = 0;
    assert(a@.subrange(0, a@.len() as int) =~= a@);
    assert(b@.subrange(0, b@.len() as int) =~= b@);
    while i < a.len() && i < b.len()
        invariant
            i <= a@.len(),
            i <= b@.len(),
            bytes_lt(a@, b@) == bytes_lt(a@.subrange(i as int, a@.len() as int), b@.subrange(i as int, b@.len() as int)),
        decreases a@.len() - i,
    {
        let ghost sa = a@.subrange(i as int, a@.len() as int);
        let ghost sb = b@.subrange(i as int, b@.len() as int);
        assert(sa.drop_first() =~= a@.subrange(i + 1, a@.len() as int));
        assert(sb.drop_first() =~= b@.subrange(i + 1, b@.len() as int));
        if a[i] != b[i] {
            return a[i] < b[i];
        }
        i = i + 1;
    }
    i < b.len()
}

/// Whether `ext` equals the lower-case `lit` once its ASCII letters are lowered.
pub(crate) fn lower_equals(ext: &[u8], start: usize, lit: &Vec<u8>) -> (r: bool)
    requires
        start <= ext@.len(),
    ensures
        r == (lower_seq(ext@.subrange(start as int, ext@.len() as int)) == lit@),
{
    let ghost e = ext@.subrange(start as int, ext@.len() as int);
    if ext.len() - start != lit.len() {
        assert(lower_seq(e).len() != lit@.len());
        return false;
    }
    let n = ext.len();
    let mut i: usize = 0;
    while i < lit.len()
        invariant
            n == ext@.len(),
            i <= lit@.len(),
            lit@.len() == ext@.len() - start,
            start <= ext@.len(),
            e == ext@.subrange(start as int, ext@.len() as int),
            forall|j: int| 0 <= j < i ==> ascii_lower(e[j]) == lit@[j],
        decreases lit@.len() - i,
    {
        let b = ext[start + i];
        let lb: u8 = if 65 <= b && b <= 90 { b + 32 } else { b };
        if lb != lit[i] {
            assert(lower_seq(e)[i as int] != lit@[i as int]);
            return false;
        }
        i = i + 1;
    }
    assert(lower_seq(e) =~= lit@);
    true
}

/// Whether `name` names a file of a supported image type.
pub fn is_image_file_name(name: &[u8], exts: &Vec<Vec<u8>>) -> (r: bool)
    requires
        exts@.map_values(|v: Vec<u8>| v@) == supported_extensions(),
    ensures
        r == is_image_name(name@),
{
    let n = name.len();
    let dot = find_last_dot(name);
    if dot.is_none() {
        return false;
    }
    let k = dot.unwrap();
    if k == 0 {
        return false;
    }
    assert(k < n);
    let start = k + 1;
    assert(extension_of(name@) == Some(name@.subrange(start as int, name@.len() as int)));
    let ghost low = lower_seq(name@.subrange(start as int, name@.len() as int));
    let mut k: usize = 0;
    while k < exts.len()
        invariant
            k <= exts@.len(),
            start <= name@.len(),
            low == lower_seq(name@.subrange(start as int, name@.len() as int)),
            extension_of(name@) == Some(name@.subrange(start as int, name@.len() as int)),
            exts@.map_values(|v: Vec<u8>| v@) == supported_extensions(),
            forall|j: int| 0 <= j < k ==> supported_extensions()[j] != low,
        decreases exts@.len() - k,
    {
        if lower_equals(name, start, &exts[k]) {
            assert(supported_extensions()[k as int] == exts@[k as int]@);
            assert(supported_extensions()[k as int] == low);
            assert(supported_extensions().contains(low));
            return true;
        }
        assert(supported_extensions()[k as int] == exts@[k as int]@);
        k = k + 1;
    }
    false
}

/// The numeric sort key of the stem `name[..end]`, if it has one.
pub fn extract_numeric_sort_key(name: &[u8], end: usize) -> (r: Option<Vec<u8>>)
    requires
        end <= name@.len(),
    ensures
        match r {
            Some(k) => numeric_key(name@.subrange(0, end as int)) == Some(k@),
            None => numeric_key(name@.subrange(0, end as int)) is None,
        },
{
    let mut value: u64 = 0;
    let mut seen: bool = false;
    let mut too_large: bool = false;
    let mut i: usize = 0;
    assert(name@.subrange(0, 0) =~= Seq::<u8>::empty());
    while i < end
        invariant
            i <= end,
            end <= name@.len(),
            seen == (digits_of(name@.subrange(0, i as int)).len() > 0),
            !too_large ==> value == digits_value(digits_of(name@.subrange(0, i as int))),
            !too_large ==> value <= u32::MAX,
            too_large ==> digits_value(digits_of(name@.subrange(0, i as int))) > u32::MAX,
        decreases end - i,
    {
        let ghost pre = name@.subrange(0, i as int);
        let ghost next = name@.subrange(0, i + 1);
        assert(next.drop_last() =~= pre);
        let b = name[i];
        if 48 <= b && b <= 57 {
            assert(digits_of(next) == digits_of(pre).push(b));
            assert(digits_of(pre).push(b).drop_last() =~= digits_of(pre));
            assert(digits_value(digits_of(next)) == digits_value(digits_of(pre)) * 10 + (b - 48));
            seen = true;
            if !too_large {
                value = value * 10 + (b - 48) as u64;
                if value > 4294967295u64 {
                    too_large = true;
                }
            }
        } else {
            assert(digits_of(next) == digits_of(pre));
        }
        i = i + 1;
    }
    if !seen || too_large {
        return None;
    }
    let mut key: Vec<u8> = Vec::new();
    push_padded_decimal(&mut key, value as u32, KEY_WIDTH);
    assert(key@ =~= padded_decimal(value as nat, KEY_WIDTH as nat));
    Some(key)
}

/// The sort key of a file name.
pub fn sort_key_of(name: &[u8]) -> (r: Vec<u8>)
    ensures
        r@ == sort_key(name@),
{
    let end: usize = match find_last_dot(name) {
        Some(k) => if k == 0 { name.len() } else { k },
        None => name.len(),
    };
    proof { lemma_last_dot_bounds(name@); }
    assert(name@.subrange(0, name@.len() as int) =~= name@);
    assert(stem_of(name@) == name@.subrange(0, end as int));
    match extract_numeric_sort_key(name, end) {
        Some(k) => k,
        None => {
            let mut copy: Vec<u8> = Vec::new();
            let mut i: usize = 0;
            while i < name.len()
                invariant
                    i <= name@.len(),
                    copy@ == name@.subrange(0, i as int),
                decreases name@.len() - i,
            {
                copy.push(name[i]);
                assert(copy@ =~= name@.subrange(0, i + 1));
                i = i + 1;
            }
            copy
        },
    }
}

/// No byte string is less than itself.
pub proof fn lemma_bytes_lt_irreflexive(a: Seq<u8>)
    ensures
        !bytes_lt(a, a),
    decreases a.len(),
{
    if a.len() > 0 {
        lemma_bytes_lt_irreflexive(a.drop_first());
    }
}

/// Two different byte strings are ordered one way.
pub proof fn lemma_bytes_lt_total(a: Seq<u8>, b: Seq<u8>)
    ensures
        a != b ==> (bytes_lt(a, b) || bytes_lt(b, a)),
        !(bytes_lt(a, b) && bytes_lt(b, a)),
    decreases a.len(),
{
    if a.len() > 0 && b.len() > 0 && a[0] == b[0] {
        lemma_bytes_lt_total(a.drop_first(), b.drop_first());
        if a.drop_first() == b.drop_first() {
            assert(a =~= seq![a[0]] + a.drop_first());
            assert(b =~= seq![b[0]] + b.drop_first());
        }
    }
    if a.len() == 0 && b.len() == 0 {
        assert(a =~= b);
    }
}

/// The byte-wise order is transitive.
pub proof fn lemma_bytes_lt_transitive(a: Seq<u8>, b: Seq<u8>, c: Seq<u8>)
    requires
        bytes_lt(a, b),
        bytes_lt(b, c),
    ensures
        bytes_lt(a, c),
    decreases a.len(),
{
    if a.len() > 0 && b.len() > 0 && c.len() > 0 && a[0] == b[0] && b[0] == c[0] {
        lemma_bytes_lt_transitive(a.drop_first(), b.drop_first(), c.drop_first());
    }
}

/// `10` to the power `d`.
pub open spec fn pow10(d: nat) -> nat
    decreases d,
{
    if d == 0 {
        1
    } else {
        10 * pow10((d - 1) as nat)
    }
}

proof fn lemma_padded_is_digits(n: nat, w: nat)
    ensures
        padded_decimal(n, w).len() == w,
        forall|i: int| 0 <= i < w ==> is_digit(#[trigger] padded_decimal(n, w)[i]),
    decreases w,
{
    if w > 0 {
        lemma_padded_is_digits(n / 10, (w - 1) as nat);
    }
}

proof fn lemma_lt_push_prefix(x: Seq<u8>, y: Seq<u8>, c: u8, d: u8)
    requires
        x.len() == y.len(),
        bytes_lt(x, y),
    ensures
        bytes_lt(x.push(c), y.push(d)),
    decreases x.len(),
{
    if x.len() > 0 && x[0] == y[0] {
        assert(x.push(c).drop_first() =~= x.drop_first().push(c));
        assert(y.push(d).drop_first() =~= y.drop_first().push(d));
        lemma_lt_push_prefix(x.drop_first(), y.drop_first(), c, d);
    }
}

proof fn lemma_lt_push_last(x: Seq<u8>, c: u8, d: u8)
    requires
        c < d,
    ensures
        bytes_lt(x.push(c), x.push(d)),
    decreases x.len(),
{
    if x.len() > 0 {
        assert(x.push(c).drop_first() =~= x.drop_first().push(c));
        assert(x.push(d).drop_first() =~= x.drop_first().push(d));
        lemma_lt_push_last(x.drop_first(), c, d);
    } else {
        assert(x.push(c)[0] == c);
        assert(x.push(d)[0] == d);
    }
}

/// Zero-padded decimals of one width order as their numbers do.
pub proof fn lemma_padded_order(a: nat, b: nat, w: nat)
    requires
        a < b < pow10(w),
    ensures
        bytes_lt(padded_decimal(a, w), padded_decimal(b, w)),
    decreases w,
{
    if w == 0 {
        assert(pow10(0) == 1);
    } else {
        let p = pow10((w - 1) as nat);
        assert(a / 10 <= b / 10) by (nonlinear_arith)
            requires
                a < b,
        ;
        assert(b / 10 < p) by (nonlinear_arith)
            requires
                b < 10 * p,
        ;
        lemma_padded_is_digits(a / 10, (w - 1) as nat);
        lemma_padded_is_digits(b / 10, (w - 1) as nat);
        if a / 10 < b / 10 {
            lemma_padded_order(a / 10, b / 10, (w - 1) as nat);
            lemma_lt_push_prefix(
                padded_decimal(a / 10, (w - 1) as nat),
                padded_decimal(b / 10, (w - 1) as nat),
                (48 + a % 10) as u8,
                (48 + b % 10) as u8,
            );
        } else {
            assert(a % 10 < b % 10) by (nonlinear_arith)
                requires
                    a < b,
                    a / 10 == b / 10,
            ;
            lemma_lt_push_last(padded_decimal(a / 10, (w - 1) as nat), (48 + a % 10) as u8, (48 + b % 10) as u8);
        }
    }
}

/// Numeric sort keys order as the numbers read from the stems: a stem whose
/// digits denote a smaller number gets the smaller key.
pub proof fn lemma_numeric_key_order(s: Seq<u8>, t: Seq<u8>)
    requires
        numeric_key(s) is Some,
        numeric_key(t) is Some,
        digits_value(digits_of(s)) < digits_value(digits_of(t)),
    ensures
        bytes_lt(numeric_key(s)->Some_0, numeric_key(t)->Some_0),
{
    assert(pow10(10) == 10000000000) by {
        reveal_with_fuel(pow10, 11);
    }
    lemma_padded_order(digits_value(digits_of(s)), digits_value(digits_of(t)), 10);
}

/// A file name whose key is the name itself, compared with a name that has a
/// numeric key: it sorts before when its first byte is below `0`, after when
/// its first byte is above `9`.
pub proof fn lemma_fallback_key_order(fallback: Seq<u8>, numeric: Seq<u8>)
    requires
        fallback.len() > 0,
        numeric_key(stem_of(fallback)) is None,
        numeric_key(stem_of(numeric)) is Some,
    ensures
        fallback[0] < 48 ==> bytes_lt(sort_key(fallback), sort_key(numeric)),
        fallback[0] > 57 ==> bytes_lt(sort_key(numeric), sort_key(fallback)),
{
    let d = digits_of(stem_of(numeric));
    lemma_padded_is_digits(digits_value(d), 10);
    assert(is_digit(sort_key(numeric)[0]));
}

} // verus!

//! The YMODEM header packet: a file name and a decimal file size in a
//! 128-byte payload.
use vstd::prelude::*;

verus! {

/// Length of the header packet's payload.
pub const HEADER_LEN: usize = 128;

/// The ASCII decimal digits of `n`, most significant first, without leading zeros.
pub open spec fn decimal(n: nat) -> Seq<u8>
    decreases n,
{
    if n < 10 {
        seq![(48 + n) as u8]
    } else {
        decimal(n / 10).push((48 + n % 10) as u8)
    }
}

/// `s` followed by zeros up to `len` bytes.
pub open spec fn zero_padded(s: Seq<u8>, len: nat) -> Seq<u8> {
    s + Seq::new((len - s.len()) as nat, |i: int| 0u8)
}

/// The header payload for a file called `name` of `size` bytes: the name, a
/// zero, the size in decimal, a zero, and zeros to the end.
pub open spec fn header_payload(name: Seq<u8>, size: nat) -> Seq<u8> {
    zero_padded(name + seq![0u8] + decimal(size) + seq![0u8], HEADER_LEN as nat)
}

/// Whether the header payload of `name` and `size` fits in a header packet.
pub open spec fn header_fits(name: Seq<u8>, size: nat) -> bool {
    name.len() + decimal(size).len() + 2 <= HEADER_LEN
}

/// The index of the first `stop` byte in `s`, or its length if it holds none.
pub open spec fn span(s: Seq<u8>, stop: u8) -> nat
    decreases s.len(),
{
    if s.len() == 0 {
        0
    } else if s[0] == stop {
        0
    } else {
        1 + span(s.drop_first(), stop)
    }
}

pub open spec fn is_digit(b: u8) -> bool {
    48 <= b <= 57
}

pub open spec fn all_digits(s: Seq<u8>) -> bool {
    forall|i: int| 0 <= i < s.len() ==> is_digit(#[trigger] s[i])
}

/// The number that the decimal digits `s` write.
pub open spec fn digits_value(s: Seq<u8>) -> nat
    decreases s.len(),
{
    if s.len() == 0 {
        0
    } else {
        digits_value(s.drop_last()) * 10 + (s.last() - 48) as nat
    }
}

/// `s` read as unsigned decimal digits that fit in 32 bits.
pub open spec fn parse_digits(s: Seq<u8>) -> Option<u32> {
    if s.len() > 0 && all_digits(s) && digits_value(s) <= u32::MAX {
        Some(digits_value(s) as u32)
    } else {
        None
    }
}

/// `s` read as an unsigned decimal number that fits in 32 bits, with an
/// optional leading `+`.
pub open spec fn parse_decimal(s: Seq<u8>) -> Option<u32> {
    if s.len() > 0 && s[0] == 43 {
        parse_digits(s.drop_first())
    } else {
        parse_digits(s)
    }
}

/// The digits of `s`, in order, with every other byte left out.
pub open spec fn keep_digits(s: Seq<u8>) -> Seq<u8>
    decreases s.len(),
{
    if s.len() == 0 {
        Seq::empty()
    } else if is_digit(s.last()) {
        keep_digits(s.drop_last()).push(s.last())
    } else {
        keep_digits(s.drop_last())
    }
}

/// The file size written in `field`: the whole field as a decimal number or,
/// failing that, the part before its first space. With `ignore_non_digits`
/// the non-digit bytes are removed first.
pub open spec fn parse_size(field: Seq<u8>, ignore_non_digits: bool) -> Option<u32> {
    let f = if ignore_non_digits { keep_digits(field) } else { field };
    match parse_decimal(f) {
        Some(v) => Some(v),
        None => parse_decimal(f.subrange(0, span(f, 32) as int)),
    }
}

/// The file name in a header payload: the bytes before the first zero.
pub open spec fn header_name(p: Seq<u8>) -> Seq<u8> {
    p.subrange(0, span(p, 0) as int)
}

/// The size field in a header payload: the bytes after the name's zero, up
/// to the next zero or the end.
pub open spec fn size_field(p: Seq<u8>) -> Seq<u8> {
    let rest = p.subrange(span(p, 0) as int + 1, p.len() as int);
    rest.subrange(0, span(rest, 0) as int)
}

/// The name and size a header payload announces; `None` when the name has
/// no terminating zero or the size cannot be read.
pub open spec fn parse_header_spec(p: Seq<u8>, ignore_non_digits: bool) -> Option<(Seq<u8>, u32)> {
    if span(p, 0) >= p.len() {
        None
    } else {
        match parse_size(size_field(p), ignore_non_digits) {
            Some(n) => Some((header_name(p), n)),
            None => None,
        }
    }
}

proof fn lemma_span(s: Seq<u8>, stop: u8, i: int)
    requires
        0 <= i <= s.len(),
        forall|j: int| 0 <= j < i ==> s[j] != stop,
        i == s.len() || s[i] == stop,
    ensures
        span(s, stop) == i,
    decreases i,
{
    if i > 0 {
        lemma_span(s.drop_first(), stop, i - 1);
    }
}

proof fn lemma_span_bound(s: Seq<u8>, stop: u8)
    ensures
        span(s, stop) <= s.len(),
        span(s, stop) < s.len() ==> s[span(s, stop) as int] == stop,
        forall|j: int| 0 <= j < span(s, stop) ==> s[j] != stop,
    decreases s.len(),
{
    if s.len() > 0 && s[0] != stop {
        lemma_span_bound(s.drop_first(), stop);
        assert forall|j: int| 0 <= j < span(s, stop) implies s[j] != stop by {
            if j > 0 {
                assert(s[j] == s.drop_first()[j - 1]);
            }
        }
    }
}

/// The index of the first `stop` byte in `s`, or its length.
pub fn find_byte(s: &[u8], stop: u8) -> (r: usize)
    ensures
        r == span(s@, stop),
        r <= s@.len(),
{
    let mut i: usize = 0;
    while i < s.len() && s[i] != stop
        invariant
            i <= s@.len(),
            forall|j: int| 0 <= j < i ==> s@[j] != stop,
        decreases s@.len() - i,
    {
        i = i + 1;
    }
    proof {
        lemma_span(s@, stop, i as int);
    }
    i
}

/// Copies `s[from..to]`.
pub(crate) fn copy_range(s: &[u8], from: usize, to: usize) -> (r: Vec<u8>)
    requires
        from <= to <= s@.len(),
    ensures
        r@ == s@.subrange(from as int, to as int),
{
    let mut r: Vec<u8> = Vec::new();
    let mut i: usize = from;
    while i < to
        invariant
            from <= i <= to <= s@.len(),
            r@ == s@.subrange(from as int, i as int),
        decreases to - i,
    {
        r.push(s[i]);
        i = i + 1;
        proof {
            assert(r@ =~= s@.subrange(from as int, i as int));
        }
    }
    r
}

proof fn lemma_decimal(n: nat)
    ensures
        decimal(n).len() >= 1,
        all_digits(decimal(n)),
        digits_value(decimal(n)) == n,
    decreases n,
{
    if n >= 10 {
        lemma_decimal(n / 10);
        let d = decimal(n);
        assert(d.drop_last() =~= decimal(n / 10));
        assert(d.last() == (48 + n % 10) as u8);
        vstd::arithmetic::div_mod::lemma_fundamental_div_mod(n as int, 10);
        assert(digits_value(d) == digits_value(decimal(n / 10)) * 10 + (d.last() - 48) as nat);
        assert((d.last() - 48) as nat == n % 10);
        assert forall|i: int| 0 <= i < d.len() implies is_digit(#[trigger] d[i]) by {
            if i < d.len() - 1 {
                assert(d[i] == decimal(n / 10)[i]);
            }
        }
    } else {
        let d = decimal(n);
        assert(d.drop_last() =~= Seq::<u8>::empty());
        assert(digits_value(d.drop_last()) == 0);
        assert(d.last() == (48 + n) as u8);
        assert(is_digit(d[0]));
    }
}

/// Writes `n` in decimal ASCII.
pub fn encode_decimal(n: u64) -> (r: Vec<u8>)
    ensures
        r@ == decimal(n as nat),
    decreases n,
{
    if n < 10 {
        let mut r: Vec<u8> = Vec::new();
        r.push((48 + n) as u8);
        proof {
            assert(r@ =~= decimal(n as nat));
        }
        r
    } else {
        let mut r = encode_decimal(n / 10);
        r.push((48 + n % 10) as u8);
        r
    }
}

/// Builds the header payload for a file called `name` of `size` bytes.
pub fn build_header_payload(name: &[u8], size: u64) -> (r: Vec<u8>)
    requires
        header_fits(name@, size as nat),
    ensures
        r@ == header_payload(name@, size as nat),
        r@.len() == HEADER_LEN,
{
    let digits = encode_decimal(size);
    let mut r: Vec<u8> = Vec::new();
    let mut i: usize = 0;
    while i < name.len()
        invariant
            i <= name@.len(),
            r@ == name@.subrange(0, i as int),
        decreases name@.len() - i,
    {
        r.push(name[i]);
        i = i + 1;
        proof {
            assert(r@ =~= name@.subrange(0, i as int));
        }
    }
    proof {
        assert(name@.subrange(0, i as int) =~= name@);
    }
    r.push(0);
    let ghost named = r@;
    let mut j: usize = 0;
    while j < digits.len()
        invariant
            j <= digits@.len(),
            r@ == named + digits@.subrange(0, j as int),
        decreases digits@.len() - j,
    {
        r.push(digits[j]);
        j = j + 1;
        proof {
            assert(r@ =~= named + digits@.subrange(0, j as int));
        }
    }
    proof {
        assert(digits@.subrange(0, j as int) =~= digits@);
    }
    r.push(0);
    let ghost content = r@;
    assert(content =~= name@ + seq![0u8] + decimal(size as nat) + seq![0u8]);
    while r.len() < HEADER_LEN
        invariant
            content.len() <= r@.len() <= HEADER_LEN,
            r@ == zero_padded(content, r@.len() as nat),
        decreases HEADER_LEN - r@.len(),
    {
        r.push(0);
        proof {
            assert(r@ =~= zero_padded(content, r@.len() as nat));
        }
    }
    r
}

proof fn lemma_value_monotone(s: Seq<u8>, i: int)
    requires
        0 <= i <= s.len(),
        all_digits(s),
    ensures
        digits_value(s.subrange(0, i)) <= digits_value(s),
    decreases s.len(),
{
    if i < s.len() {
        let t = s.drop_last();
        assert(t.subrange(0, i) =~= s.subrange(0, i));
        assert(all_digits(t)) by {
            assert forall|k: int| 0 <= k < t.len() implies is_digit(#[trigger] t[k]) by {
                assert(t[k] == s[k]);
            }
        }
        lemma_value_monotone(t, i);
    } else {
        assert(s.subrange(0, i) =~= s);
    }
}

/// Reads `s` as an unsigned decimal number that fits in 32 bits, with an
/// optional leading `+`.
pub fn parse_decimal_bytes(s: &[u8]) -> (r: Option<u32>)
    ensures
        r == parse_decimal(s@),
{
    if s.len() > 0 && s[0] == 43 {
        let rest = copy_range(s, 1, s.len());
        assert(rest@ =~= s@.drop_first());
        parse_digit_bytes(rest.as_slice())
    } else {
        parse_digit_bytes(s)
    }
}

/// Reads `s` as unsigned decimal digits that fit in 32 bits.
pub fn parse_digit_bytes(s: &[u8]) -> (r: Option<u32>)
    ensures
        r == parse_digits(s@),
{
    if s.len() == 0 {
        return None;
    }
    let mut value: u64 = 0;
    let mut i: usize = 0;
    while i < s.len()
        invariant
            i <= s@.len(),
            all_digits(s@.subrange(0, i as int)),
            value == digits_value(s@.subrange(0, i as int)),
            value <= u32::MAX,
        decreases s@.len() - i,
    {
        let b = s[i];
        let ghost pre = s@.subrange(0, i as int);
        let ghost next = s@.subrange(0, i + 1);
        assert(next.drop_last() =~= pre);
        if b < 48 || b > 57 {
            assert(!is_digit(s@[i as int]));
            return None;
        }
        let v = value * 10 + (b - 48) as u64;
        assert(all_digits(next)) by {
            assert forall|k: int| 0 <= k < next.len() implies is_digit(#[trigger] next[k]) by {
                if k < i {
                    assert(next[k] == pre[k]);
                }
            }
        }
        if v > 4294967295 {
            proof {
                if all_digits(s@) {
                    lemma_value_monotone(s@, i + 1);
                }
            }
            return None;
        }
        value = v;
        i = i + 1;
    }
    proof {
        assert(s@.subrange(0, i as int) =~= s@);
    }
    Some(value as u32)
}

/// The digits of `s`, in order.
pub fn keep_digit_bytes(s: &[u8]) -> (r: Vec<u8>)
    ensures
        r@ == keep_digits(s@),
{
    let mut r: Vec<u8> = Vec::new();
    let mut i: usize = 0;
    while i < s.len()
        invariant
            i <= s@.len(),
            r@ == keep_digits(s@.subrange(0, i as int)),
        decreases s@.len() - i,
    {
        let ghost next = s@.subrange(0, i + 1);
        assert(next.drop_last() =~= s@.subrange(0, i as int));
        if 48 <= s[i] && s[i] <= 57 {
            r.push(s[i]);
        }
        i = i + 1;
    }
    proof {
        assert(s@.subrange(0, i as int) =~= s@);
    }
    r
}

/// Reads the file size from a header's size field.
pub fn parse_size_field(field: &[u8], ignore_non_digits: bool) -> (r: Option<u32>)
    ensures
        r == parse_size(field@, ignore_non_digits),
{
    let f: Vec<u8> = if ignore_non_digits {
        keep_digit_bytes(field)
    } else {
        copy_range(field, 0, field.len())
    };
    proof {
        assert(field@.subrange(0, field@.len() as int) =~= field@);
    }
    match parse_decimal_bytes(f.as_slice()) {
        Some(v) => Some(v),
        None => {
            let end = find_byte(f.as_slice(), 32);
            let prefix = copy_range(f.as_slice(), 0, end);
            parse_decimal_bytes(prefix.as_slice())
        },
    }
}

/// Reads the file name and size that a header payload announces.
pub fn parse_header(p: &[u8], ignore_non_digits: bool) -> (r: Option<(Vec<u8>, u32)>)
    ensures
        match r {
            Some((name, size)) => parse_header_spec(p@, ignore_non_digits) == Some((name@, size)),
            None => parse_header_spec(p@, ignore_non_digits) is None,
        },
{
    let name_end = find_byte(p, 0);
    if name_end >= p.len() {
        return None;
    }
    let name = copy_range(p, 0, name_end);
    let rest = copy_range(p, name_end + 1, p.len());
    let size_end = find_byte(rest.as_slice(), 0);
    let field = copy_range(rest.as_slice(), 0, size_end);
    match parse_size_field(field.as_slice(), ignore_non_digits) {
        Some(n) => Some((name, n)),
        None => None,
    }
}

proof fn lemma_keep_all_digits(s: Seq<u8>)
    requires
        all_digits(s),
    ensures
        keep_digits(s) == s,
    decreases s.len(),
{
    if s.len() > 0 {
        let t = s.drop_last();
        assert(all_digits(t)) by {
            assert forall|k: int| 0 <= k < t.len() implies is_digit(#[trigger] t[k]) by {
                assert(t[k] == s[k]);
            }
        }
        lemma_keep_all_digits(t);
        assert(is_digit(s[s.len() - 1]));
        assert(t.push(s.last()) =~= s);
    }
}

/// A header payload built for a name without zero bytes and a size that
/// fits in 32 bits reads back as that name and size, whether or not
/// non-digits are ignored.
pub proof fn lemma_header_round_trip(name: Seq<u8>, size: nat, ignore_non_digits: bool)
    requires
        header_fits(name, size),
        size <= u32::MAX,
        forall|i: int| 0 <= i < name.len() ==> name[i] != 0,
    ensures
        parse_header_spec(header_payload(name, size), ignore_non_digits) == Some((name, size as u32)),
{
    let d = decimal(size);
    lemma_decimal(size);
    let p = header_payload(name, size);
    let n = name.len() as int;
    assert(p.len() == HEADER_LEN);
    assert forall|j: int| 0 <= j < n implies p[j] != 0 by {
        assert(p[j] == name[j]);
    }
    assert(p[n] == 0);
    lemma_span(p, 0, n);
    assert(header_name(p) =~= name);
    let rest = p.subrange(n + 1, p.len() as int);
    assert forall|j: int| 0 <= j < d.len() implies rest[j] != 0 by {
        assert(rest[j] == d[j]);
        assert(is_digit(d[j]));
    }
    assert(rest[d.len() as int] == 0);
    lemma_span(rest, 0, d.len() as int);
    assert(size_field(p) =~= d);
    lemma_keep_all_digits(d);
    assert(is_digit(d[0]));
    assert(parse_decimal(d) == Some(size as u32));
}

} // verus!

use vstd::prelude::*;

verus! {

/// Fixed-point scale: 10^8 raw units per currency unit.
pub const SCALE: i64 = 100_000_000;

/// Integer division of `n` by a positive `d`, truncating toward zero.
pub open spec fn trunc_div(n: int, d: int) -> int {
    if n >= 0 {
        n / d
    } else {
        -((-n) / d)
    }
}

/// `x` wrapped into the range of `i64` (two's complement).
pub open spec fn wrap64(x: int) -> int {
    if x > i64::MAX {
        x - 0x1_0000_0000_0000_0000
    } else if x < i64::MIN {
        x + 0x1_0000_0000_0000_0000
    } else {
        x
    }
}

/// A price: a decimal scaled by 10^8, held as a signed 64-bit integer.
#[derive(Debug, Clone, Copy, PartialEq, Eq, Structural, PartialOrd, Ord, Hash)]
pub struct Price {
    raw: i64,
}

impl View for Price {
    type V = i64;

    open spec fn view(&self) -> i64 {
        self.spec_raw()
    }
}

pub(crate) fn trunc_div_i128(n: i128, d: i128) -> (r: i128)
    requires
        d > 0,
        n > i128::MIN,
    ensures
        r as int == trunc_div(n as int, d as int),
{
    if n >= 0 {
        n / d
    } else {
        -((-n) / d)
    }
}

impl Price {
    pub closed spec fn spec_raw(&self) -> i64 {
        self.raw
    }

    /// A price from raw units (already scaled by 10^8).
    pub fn new(raw: i64) -> (r: Price)
        ensures
            r@ == raw,
    {
        Price { raw }
    }

    /// The raw units.
    pub fn raw(&self) -> (r: i64)
        ensures
            r == self@,
    {
        self.raw
    }

    /// Notional value `price * qty`, exact.
    pub fn notional(&self, qty: u32) -> (r: i64)
        requires
            i64::MIN <= self@ * qty <= i64::MAX,
        ensures
            r == self@ * qty,
    {
        self.raw * (qty as i64)
    }

    /// Quantity-weighted average of two prices, truncating toward zero;
    /// zero when both quantities are zero.
    pub fn weighted_avg(old_avg: &Price, old_qty: u32, new_price: &Price, new_qty: u32) -> (r: Price)
        ensures
            old_qty as int + new_qty as int == 0 ==> r@ == 0,
            old_qty as int + new_qty as int != 0 ==> r@ == trunc_div(
                old_avg@ * old_qty + new_price@ * new_qty,
                old_qty + new_qty,
            ),
    {
        let total: i128 = old_qty as i128 + new_qty as i128;
        if total == 0 {
            return Price { raw: 0 };
        }
        let a = old_avg.raw as i128;
        let b = new_price.raw as i128;
        let oq = old_qty as i128;
        let nq = new_qty as i128;
        proof {
            assert(-0x8000_0000_0000_0000_0000_0000 <= a * oq <= 0x8000_0000_0000_0000_0000_0000) by (nonlinear_arith)
                requires
                    -0x8000_0000_0000_0000 <= a <= 0x8000_0000_0000_0000,
                    0 <= oq <= 0x1_0000_0000,
            ;
            assert(-0x8000_0000_0000_0000_0000_0000 <= b * nq <= 0x8000_0000_0000_0000_0000_0000) by (nonlinear_arith)
                requires
                    -0x8000_0000_0000_0000 <= b <= 0x8000_0000_0000_0000,
                    0 <= nq <= 0x1_0000_0000,
            ;
        }
        let num = a * oq + b * nq;
        let q = trunc_div_i128(num, total);
        proof {
            lemma_weighted_bound(a as int, oq as int, b as int, nq as int);
        }
        Price { raw: q as i64 }
    }

    /// Midpoint of two prices, truncating toward zero.
    pub fn midpoint(&self, other: &Price) -> (r: Price)
        ensures
            r@ == trunc_div(self@ + other@, 2),
    {
        let sum = self.raw as i128 + other.raw as i128;
        let q = trunc_div_i128(sum, 2);
        Price { raw: q as i64 }
    }
}

/// A weighted average lies between the smallest and largest value.
proof fn lemma_weighted_bound(a: int, oq: int, b: int, nq: int)
    requires
        i64::MIN <= a <= i64::MAX,
        i64::MIN <= b <= i64::MAX,
        0 <= oq,
        0 <= nq,
        oq + nq > 0,
    ensures
        i64::MIN <= trunc_div(a * oq + b * nq, oq + nq) <= i64::MAX,
{
    let t = oq + nq;
    let n = a * oq + b * nq;
    assert(i64::MIN * t <= n <= i64::MAX * t) by (nonlinear_arith)
        requires
            i64::MIN <= a <= i64::MAX,
            i64::MIN <= b <= i64::MAX,
            0 <= oq,
            0 <= nq,
            t == oq + nq,
            n == a * oq + b * nq,
    ;
    if n >= 0 {
        assert(n / t <= i64::MAX) by (nonlinear_arith)
            requires
                0 <= n <= i64::MAX * t,
                t > 0,
        ;
        assert(n / t >= 0) by (nonlinear_arith)
            requires
                0 <= n,
                t > 0,
        ;
    } else {
        assert((-n) / t <= -(i64::MIN as int)) by (nonlinear_arith)
            requires
                0 < -n <= -(i64::MIN as int) * t,
                t > 0,
        ;
        assert((-n) / t >= 0) by (nonlinear_arith)
            requires
                0 <= -n,
                t > 0,
        ;
    }
}

impl core::ops::Add for Price {
    type Output = Price;

    /// Exact sum; wraps around past the range of `i64`.
    fn add(self, rhs: Price) -> (r: Price)
        ensures
            r@ == wrap64(self@ + rhs@),
            r == price_of(wrap64(self@ + rhs@) as i64),
    {
        Price { raw: self.raw.wrapping_add(rhs.raw) }
    }
}

impl vstd::std_specs::ops::AddSpecImpl for Price {
    open spec fn obeys_add_spec() -> bool {
        true
    }

    open spec fn add_req(self, rhs: Price) -> bool {
        true
    }

    open spec fn add_spec(self, rhs: Price) -> Price {
        price_of(wrap64(self@ + rhs@) as i64)
    }
}

impl vstd::std_specs::ops::SubSpecImpl for Price {
    open spec fn obeys_sub_spec() -> bool {
        true
    }

    open spec fn sub_req(self, rhs: Price) -> bool {
        true
    }

    open spec fn sub_spec(self, rhs: Price) -> Price {
        price_of(wrap64(self@ - rhs@) as i64)
    }
}

/// The price whose raw units are `raw`.
pub closed spec fn price_of(raw: i64) -> Price {
    Price { raw }
}

impl core::ops::Sub for Price {
    type Output = Price;

    /// Exact difference; wraps around past the range of `i64`.
    fn sub(self, rhs: Price) -> (r: Price)
        ensures
            r@ == wrap64(self@ - rhs@),
            r == price_of(wrap64(self@ - rhs@) as i64),
    {
        Price { raw: self.raw.wrapping_sub(rhs.raw) }
    }
}

/// Adding then subtracting the same price gives the first price back, for
/// every pair of prices: integer arithmetic has no drift.
pub proof fn lemma_add_sub_cancel(a: i64, b: i64)
    ensures
        wrap64(wrap64(a + b) - b) == a,
{
}

/// A quantity: a raw count of units.
#[derive(Debug, Clone, Copy, PartialEq, Eq, Structural, PartialOrd, Ord, Hash)]
pub struct Quantity {
    raw: u32,
}

impl View for Quantity {
    type V = u32;

    open spec fn view(&self) -> u32 {
        self.spec_raw()
    }
}

impl Quantity {
    pub closed spec fn spec_raw(&self) -> u32 {
        self.raw
    }

    pub fn new(raw: u32) -> (r: Quantity)
        ensures
            r@ == raw,
    {
        Quantity { raw }
    }

    pub fn raw(&self) -> (r: u32)
        ensures
            r == self@,
    {
        self.raw
    }

    pub fn is_zero(&self) -> (r: bool)
        ensures
            r == (self@ == 0),
    {
        self.raw == 0
    }
}


pub open spec fn is_digit(c: char) -> bool {
    '0' <= c && c <= '9'
}

pub open spec fn digit_val(c: char) -> int {
    c as int - '0' as int
}

pub open spec fn all_digits(s: Seq<char>) -> bool {
    forall|i: int| 0 <= i < s.len() ==> is_digit(#[trigger] s[i])
}

/// The value of a string of decimal digits.
pub open spec fn digits_value(s: Seq<char>) -> nat
    decreases s.len(),
{
    if s.len() == 0 {
        0
    } else {
        (digits_value(s.drop_last()) * 10 + digit_val(s.last())) as nat
    }
}

pub open spec fn pow10(n: nat) -> nat
    decreases n,
{
    if n == 0 {
        1
    } else {
        10 * pow10((n - 1) as nat)
    }
}

/// Unicode whitespace (the White_Space property): tab to carriage return,
/// space, next line, no-break space, and the spaces and separators of the
/// U+1680, U+2000 to U+200A, U+2028, U+2029, U+202F, U+205F and U+3000 points.
pub open spec fn is_space(c: char) -> bool {
    let u = c as u32;
    (0x09 <= u && u <= 0x0D) || u == 0x20 || u == 0x85 || u == 0xA0 || u == 0x1680 || (0x2000 <= u && u <= 0x200A)
        || u == 0x2028 || u == 0x2029 || u == 0x202F || u == 0x205F || u == 0x3000
}

pub open spec fn trim_start(s: Seq<char>) -> Seq<char>
    decreases s.len(),
{
    if s.len() > 0 && is_space(s[0]) {
        trim_start(s.drop_first())
    } else {
        s
    }
}

pub open spec fn trim_end(s: Seq<char>) -> Seq<char>
    decreases s.len(),
{
    if s.len() > 0 && is_space(s.last()) {
        trim_end(s.drop_last())
    } else {
        s
    }
}

/// Index of the first '.', or the length when there is none.
pub open spec fn dot_pos(b: Seq<char>) -> nat
    decreases b.len(),
{
    if b.len() == 0 || b[0] == '.' {
        0
    } else {
        1 + dot_pos(b.drop_first())
    }
}

/// The raw units of a decimal `[sign] digits [ '.' digits ]` with at most
/// eight fractional digits, as an unbounded integer.
pub open spec fn decimal_value(t: Seq<char>) -> Option<int> {
    let k: int = if t.len() > 0 && (t[0] == '-' || t[0] == '+') { 1 } else { 0 };
    let neg = t.len() > 0 && t[0] == '-';
    let b = t.subrange(k, t.len() as int);
    let d = dot_pos(b) as int;
    let ip = b.subrange(0, d);
    let fp = if d < b.len() { b.subrange(d + 1, b.len() as int) } else { Seq::<char>::empty() };
    if ip.len() > 0 && all_digits(ip) && all_digits(fp) && fp.len() <= 8 {
        let mag: int = digits_value(ip) as int * 100_000_000int + digits_value(fp) as int * pow10((8 - fp.len()) as nat) as int;
        Some(if neg { -mag } else { mag })
    } else {
        None
    }
}

/// The price a string denotes, if any: surrounding ASCII whitespace is
/// ignored, and the value must fit in an `i64`.
pub open spec fn parse_price(s: Seq<char>) -> Option<i64> {
    match decimal_value(trim_end(trim_start(s))) {
        Some(v) => if i64::MIN <= v <= i64::MAX { Some(v as i64) } else { None },
        None => None,
    }
}

pub open spec fn digit_char(d: nat) -> char {
    ((d % 10) + ('0' as nat)) as char
}

/// Decimal digits of `n`, without leading zeros ("0" for zero).
pub open spec fn nat_digits(n: nat) -> Seq<char>
    decreases n,
{
    if n < 10 {
        seq![digit_char(n)]
    } else {
        nat_digits(n / 10).push(digit_char(n % 10))
    }
}

/// The last `w` decimal digits of `n`, zero-padded.
pub open spec fn pad_digits(n: nat, w: nat) -> Seq<char>
    decreases w,
{
    if w == 0 {
        Seq::empty()
    } else {
        pad_digits(n / 10, (w - 1) as nat).push(digit_char(n % 10))
    }
}

pub open spec fn abs_i64(v: i64) -> nat {
    if v < 0 {
        (-(v as int)) as nat
    } else {
        v as nat
    }
}

/// `{integer}.{8 fractional digits}`, with a leading '-' for negative prices.
pub open spec fn display_price(v: i64) -> Seq<char> {
    (if v < 0 { seq!['-'] } else { Seq::<char>::empty() }) + nat_digits(abs_i64(v) / 100_000_000) + seq!['.']
        + pad_digits(abs_i64(v) % 100_000_000, 8)
}

proof fn lemma_digits_push(s: Seq<char>, c: char)
    requires
        is_digit(c),
    ensures
        digits_value(s.push(c)) == digits_value(s) * 10 + digit_val(c),
{
    assert(s.push(c).drop_last() =~= s);
}

proof fn lemma_nat_digits(n: nat)
    ensures
        all_digits(nat_digits(n)),
        digits_value(nat_digits(n)) == n,
        nat_digits(n).len() > 0,
    decreases n,
{
    if n < 10 {
        lemma_digits_push(Seq::empty(), digit_char(n));
        assert(Seq::<char>::empty().push(digit_char(n)) =~= seq![digit_char(n)]);
    } else {
        lemma_nat_digits(n / 10);
        lemma_digits_push(nat_digits(n / 10), digit_char(n % 10));
    }
}

proof fn lemma_pad_digits(n: nat, w: nat)
    requires
        n < pow10(w),
    ensures
        all_digits(pad_digits(n, w)),
        digits_value(pad_digits(n, w)) == n,
        pad_digits(n, w).len() == w,
    decreases w,
{
    if w > 0 {
        assert(n / 10 < pow10((w - 1) as nat)) by {
            assert(n < 10 * pow10((w - 1) as nat));
        }
        lemma_pad_digits(n / 10, (w - 1) as nat);
        lemma_digits_push(pad_digits(n / 10, (w - 1) as nat), digit_char(n % 10));
    }
}

proof fn lemma_dot_pos_at(b: Seq<char>, p: int)
    requires
        0 <= p <= b.len(),
        forall|i: int| 0 <= i < p ==> b[i] != '.',
        p == b.len() || b[p] == '.',
    ensures
        dot_pos(b) == p,
    decreases p,
{
    if p > 0 {
        lemma_dot_pos_at(b.drop_first(), p - 1);
    }
}

/// Reading back the display of a price gives the price.
pub proof fn lemma_display_parse_round_trip(v: i64)
    ensures
        parse_price(display_price(v)) == Some(v),
{
    let a = abs_i64(v);
    let q = a / 100_000_000;
    let r = a % 100_000_000;
    lemma_nat_digits(q);
    reveal_with_fuel(pow10, 9);
    lemma_pad_digits(r, 8);
    let t = display_price(v);
    let id = nat_digits(q);
    let fd = pad_digits(r, 8);
    assert(t.len() > 0 && !is_space(t[0])) by {
        if v >= 0 {
            assert(t[0] == id[0]);
        }
    }
    assert(trim_start(t) == t);
    assert(!is_space(t.last())) by {
        assert(t.last() == fd.last());
    }
    assert(trim_end(t) == t);
    let k: int = if v < 0 { 1 } else { 0 };
    let b = t.subrange(k, t.len() as int);
    assert(b =~= id + seq!['.'] + fd);
    lemma_dot_pos_at(b, id.len() as int);
    assert(b.subrange(0, id.len() as int) =~= id);
    assert(b.subrange(id.len() as int + 1, b.len() as int) =~= fd);
    assert(q * 100_000_000 + r == a);
    assert(is_digit(id[0]));
    assert(all_digits(b.subrange(0, id.len() as int)));
    let fp = b.subrange(id.len() as int + 1, b.len() as int);
    assert(fp.len() == 8);
    assert(pow10(0) == 1);
    assert(fp == fd);
    assert(digits_value(id) == q);
    assert(digits_value(fp) == r);
    let mag: int = digits_value(id) as int * 100_000_000int + digits_value(fp) as int * pow10(0) as int;
    assert(mag == q * 100_000_000 + r);
    assert(mag == a);
    if v < 0 {
        assert(t[0] == '-');
        assert(decimal_value(t) == Some(-mag));
    } else {
        assert(t[0] == id[0]);
        assert(decimal_value(t) == Some(mag));
    }
}


proof fn lemma_dot_pos_ge(b: Seq<char>, p: int)
    requires
        0 <= p <= b.len(),
        forall|i: int| 0 <= i < p ==> b[i] != '.',
    ensures
        dot_pos(b) >= p,
        dot_pos(b) <= b.len(),
    decreases b.len(),
{
    if b.len() > 0 && b[0] != '.' {
        if p > 0 {
            lemma_dot_pos_ge(b.drop_first(), p - 1);
        } else {
            lemma_dot_pos_ge(b.drop_first(), 0);
        }
    }
}

proof fn lemma_digits_prefix_le(s: Seq<char>, k: int)
    requires
        0 <= k <= s.len(),
        all_digits(s),
    ensures
        digits_value(s.subrange(0, k)) <= digits_value(s),
    decreases s.len(),
{
    if k < s.len() {
        assert(s.drop_last() =~= s.subrange(0, s.len() - 1));
        assert(s.subrange(0, k) =~= s.drop_last().subrange(0, k));
        lemma_digits_prefix_le(s.drop_last(), k);
    } else {
        assert(s.subrange(0, k) =~= s);
    }
}

proof fn lemma_trim_start_step(s: Seq<char>, lo: int)
    requires
        0 <= lo < s.len(),
        is_space(s[lo]),
    ensures
        trim_start(s.subrange(lo, s.len() as int)) == trim_start(s.subrange(lo + 1, s.len() as int)),
{
    assert(s.subrange(lo, s.len() as int).drop_first() =~= s.subrange(lo + 1, s.len() as int));
}

proof fn lemma_trim_end_step(s: Seq<char>, lo: int, hi: int)
    requires
        0 <= lo < hi <= s.len(),
        is_space(s[hi - 1]),
    ensures
        trim_end(s.subrange(lo, hi)) == trim_end(s.subrange(lo, hi - 1)),
{
    assert(s.subrange(lo, hi).drop_last() =~= s.subrange(lo, hi - 1));
}

/// The characters of a string.
fn chars_of(s: &str) -> (r: Vec<char>)
    ensures
        r@ == s@,
{
    let n = s.unicode_len();
    let mut out: Vec<char> = Vec::new();
    let mut i: usize = 0;
    while i < n
        invariant
            n == s@.len(),
            i <= n,
            out@ == s@.subrange(0, i as int),
        decreases n - i,
    {
        out.push(s.get_char(i));
        assert(out@ =~= s@.subrange(0, i as int + 1));
        i = i + 1;
    }
    assert(s@.subrange(0, n as int) =~= s@);
    out
}

fn is_space_char(c: char) -> (r: bool)
    ensures
        r == is_space(c),
{
    let u = c as u32;
    (0x09 <= u && u <= 0x0D) || u == 0x20 || u == 0x85 || u == 0xA0 || u == 0x1680 || (0x2000 <= u && u <= 0x200A)
        || u == 0x2028 || u == 0x2029 || u == 0x202F || u == 0x205F || u == 0x3000
}

fn is_digit_char(c: char) -> (r: bool)
    ensures
        r == is_digit(c),
{
    '0' <= c && c <= '9'
}

/// Bounds `[lo, hi)` of `cs` without surrounding whitespace.
fn trim_bounds(cs: &Vec<char>) -> (r: (usize, usize))
    ensures
        r.0 <= r.1 <= cs@.len(),
        cs@.subrange(r.0 as int, r.1 as int) == trim_end(trim_start(cs@)),
{
    let ghost sv = cs@;
    let n = cs.len();
    let mut lo: usize = 0;
    assert(sv.subrange(0, n as int) =~= sv);
    while lo < n && is_space_char(cs[lo])
        invariant
            n == sv.len(),
            cs@ == sv,
            lo <= n,
            trim_start(sv.subrange(lo as int, n as int)) == trim_start(sv),
        decreases n - lo,
    {
        proof { lemma_trim_start_step(sv, lo as int); }
        lo = lo + 1;
    }
    assert(trim_start(sv) == sv.subrange(lo as int, n as int)) by {
        if lo < n {
            assert(!is_space(sv.subrange(lo as int, n as int)[0]));
        }
    }
    let mut hi: usize = n;
    while hi > lo && is_space_char(cs[hi - 1])
        invariant
            n == sv.len(),
            cs@ == sv,
            lo <= hi <= n,
            trim_end(sv.subrange(lo as int, hi as int)) == trim_end(trim_start(sv)),
        decreases hi - lo,
    {
        proof { lemma_trim_end_step(sv, lo as int, hi as int); }
        hi = hi - 1;
    }
    proof {
        let t = sv.subrange(lo as int, hi as int);
        if t.len() > 0 {
            assert(t.last() == sv[hi - 1]);
        }
    }
    (lo, hi)
}

/// Reads the run of digits of `cs` from `from` (not past `to`). Stops early,
/// with `false`, once the value read exceeds `max_value` or `max_len`
/// digits have been read and another follows; otherwise returns where the
/// run ends, its value and `true`.
fn scan_digits(cs: &Vec<char>, from: usize, to: usize, max_value: u64, max_len: usize) -> (r: (usize, u64, bool))
    requires
        from <= to <= cs@.len(),
        max_value <= 1_000_000_000_000,
    ensures
        from <= r.0 <= to,
        all_digits(cs@.subrange(from as int, r.0 as int)),
        r.2 ==> r.1 as nat == digits_value(cs@.subrange(from as int, r.0 as int)),
        r.2 ==> r.1 <= max_value * 10 + 9,
        r.2 ==> r.0 - from <= max_len,
        r.2 ==> r.0 == to || !is_digit(cs@[r.0 as int]),
        !r.2 ==> r.0 < to && is_digit(cs@[r.0 as int]) && (digits_value(cs@.subrange(from as int, r.0 as int))
            > max_value || r.0 - from >= max_len),
{
    let mut j: usize = from;
    let mut v: u64 = 0;
    while j < to && is_digit_char(cs[j])
        invariant
            from <= j <= to <= cs@.len(),
            max_value <= 1_000_000_000_000,
            all_digits(cs@.subrange(from as int, j as int)),
            v as nat == digits_value(cs@.subrange(from as int, j as int)),
            v <= max_value * 10 + 9,
            j - from <= max_len,
        decreases to - j,
    {
        let c = cs[j];
        if v > max_value || j - from >= max_len {
            return (j, v, false);
        }
        proof {
            assert(cs@.subrange(from as int, j + 1) =~= cs@.subrange(from as int, j as int).push(c));
            lemma_digits_push(cs@.subrange(from as int, j as int), c);
        }
        v = v * 10 + (c as u64 - '0' as u64);
        j = j + 1;
    }
    (j, v, true)
}

/// `10^(8 - f)` for `f <= 8`.
fn frac_scale(f: usize) -> (r: u64)
    requires
        f <= 8,
    ensures
        r as nat == pow10((8 - f) as nat),
        r <= 100_000_000,
{
    let mut m: u64 = 1;
    let mut j: usize = f;
    while j < 8
        invariant
            f <= j <= 8,
            m as nat == pow10((j - f) as nat),
            m <= 100_000_000,
        decreases 8 - j,
    {
        proof {
            lemma_pow10_mono((j - f + 1) as nat, 8);
            reveal_with_fuel(pow10, 9);
        }
        m = m * 10;
        j = j + 1;
    }
    m
}

/// No '.' among digits.
proof fn lemma_digits_no_dot(b: Seq<char>, p: int)
    requires
        0 <= p <= b.len(),
        all_digits(b.subrange(0, p)),
    ensures
        forall|j: int| 0 <= j < p ==> b[j] != '.',
{
    assert forall|j: int| 0 <= j < p implies b[j] != '.' by {
        assert(b.subrange(0, p)[j] == b[j]);
    }
}

/// The value of the trimmed text `cs[lo..hi)` as `decimal_value` reads it,
/// when it fits in an `i64`.
#[verifier::rlimit(60)]
fn parse_trimmed(cs: &Vec<char>, lo: usize, hi: usize) -> (r: Option<i64>)
    requires
        lo <= hi <= cs@.len(),
    ensures
        ({
            let t = cs@.subrange(lo as int, hi as int);
            &&& r is Some <==> (decimal_value(t) is Some && i64::MIN <= decimal_value(t)->0 <= i64::MAX)
            &&& r is Some ==> r->0 == decimal_value(t)->0
        }),
{
    let ghost t = cs@.subrange(lo as int, hi as int);
    let mut i: usize = lo;
    let mut neg = false;
    if i < hi && (cs[i] == '-' || cs[i] == '+') {
        neg = cs[i] == '-';
        i = i + 1;
    }
    let start = i;
    let ghost b = t.subrange(start - lo, t.len() as int);
    assert(b =~= cs@.subrange(start as int, hi as int));
    assert(neg == (t.len() > 0 && t[0] == '-'));
    assert(start - lo == if t.len() > 0 && (t[0] == '-' || t[0] == '+') { 1int } else { 0int });
    let (p_end, int_val, int_ok) = scan_digits(cs, start, hi, 92_233_720_368, hi - start);
    let ghost p = p_end - start;
    assert(b.subrange(0, p) =~= cs@.subrange(start as int, p_end as int));
    proof {
        lemma_digits_no_dot(b, p);
        lemma_dot_pos_ge(b, p);
        lemma_dot_pos_hit(b);
    }
    if !int_ok {
        proof {
            let d = dot_pos(b) as int;
            let ip = b.subrange(0, d);
            if all_digits(ip) {
                assert(ip.subrange(0, p) =~= b.subrange(0, p));
                lemma_digits_prefix_le(ip, p);
            }
        }
        return None;
    }
    if p_end == start {
        proof {
            let d = dot_pos(b) as int;
            if d > 0 {
                assert(b.subrange(0, d)[0] == b[0]);
            }
        }
        return None;
    }
    let mut frac_val: u64 = 0;
    let mut frac_len: usize = 0;
    if p_end < hi {
        if cs[p_end] != '.' {
            proof {
                assert(dot_pos(b) > p);
                assert(b.subrange(0, dot_pos(b) as int)[p] == b[p]);
            }
            return None;
        }
        proof { lemma_dot_pos_at(b, p); }
        let fstart = p_end + 1;
        let (f_end, fv, f_ok) = scan_digits(cs, fstart, hi, 1_000_000_000_000, 8);
        let ghost fp = b.subrange(p + 1, b.len() as int);
        assert(fp.subrange(0, f_end - fstart) =~= cs@.subrange(fstart as int, f_end as int));
        if !f_ok {
            proof {
                let pre = cs@.subrange(fstart as int, f_end as int);
                lemma_digits_bound(pre);
                if f_end - fstart < 8 {
                    lemma_pow10_mono(pre.len(), 8);
                    reveal_with_fuel(pow10, 9);
                }
                assert(fp.len() > 8);
            }
            return None;
        }
        if f_end < hi {
            proof {
                assert(fp[f_end - fstart] == cs@[f_end as int]);
            }
            return None;
        }
        assert(fp =~= cs@.subrange(fstart as int, f_end as int));
        frac_val = fv;
        frac_len = f_end - fstart;
    } else {
        proof { lemma_dot_pos_at(b, p); }
    }
    let ghost fp = if p < b.len() { b.subrange(p + 1, b.len() as int) } else { Seq::<char>::empty() };
    assert(frac_len == fp.len());
    assert(frac_val as nat == digits_value(fp));
    assert(b.subrange(0, dot_pos(b) as int) == b.subrange(0, p));
    let m = frac_scale(frac_len);
    proof {
        assert(all_digits(fp));
        lemma_digits_bound(fp);
        lemma_pow10_split(frac_val as nat, frac_len as nat);
    }
    let mag: u128 = int_val as u128 * 100_000_000 + frac_val as u128 * m as u128;
    assert(decimal_value(t) == Some(if neg { -(mag as int) } else { mag as int }));
    if neg {
        if mag > 0x8000_0000_0000_0000u128 {
            return None;
        }
        Some((-(mag as i128)) as i64)
    } else {
        if mag > 0x7fff_ffff_ffff_ffffu128 {
            return None;
        }
        Some(mag as i64)
    }
}

/// `n` digits are worth less than `10^n`.
proof fn lemma_digits_bound(s: Seq<char>)
    requires
        all_digits(s),
    ensures
        digits_value(s) < pow10(s.len()),
    decreases s.len(),
{
    if s.len() > 0 {
        let q = s.drop_last();
        assert(all_digits(q)) by {
            assert forall|i: int| 0 <= i < q.len() implies is_digit(#[trigger] q[i]) by {
                assert(q[i] == s[i]);
            }
        }
        lemma_digits_bound(q);
        assert(is_digit(s[s.len() - 1]));
    }
}

impl Price {
    /// Parses a decimal such as "100.05" or "-3" into exact raw units:
    /// optional surrounding whitespace, an optional sign, at least one
    /// integer digit, and an optional '.' with at most eight digits. Any
    /// other text, a ninth fractional digit, or a value outside the range of
    /// `i64` is refused.
    pub fn from_str_decimal(s: &str) -> (r: Result<Price, String>)
        ensures
            r is Ok <==> parse_price(s@) is Some,
            r matches Ok(p) ==> parse_price(s@) == Some(p@),
    {
        let cs = chars_of(s);
        let (lo, hi) = trim_bounds(&cs);
        match parse_trimmed(&cs, lo, hi) {
            Some(raw) => Ok(Price { raw }),
            None => Err(String::from_str("Invalid price string")),
        }
    }
}

proof fn lemma_pow10_add(a: nat, b: nat)
    ensures
        pow10(a) * pow10(b) == pow10(a + b),
    decreases a,
{
    if a > 0 {
        lemma_pow10_add((a - 1) as nat, b);
        assert(pow10(a + b) == 10 * pow10((a + b - 1) as nat));
        assert(pow10(a) * pow10(b) == 10 * (pow10((a - 1) as nat) * pow10(b))) by (nonlinear_arith)
            requires
                pow10(a) == 10 * pow10((a - 1) as nat),
        ;
        assert((a - 1) as nat + b + 1 == a + b);
    } else {
        assert(pow10(0) == 1);
        assert(a + b == b);
    }
}

proof fn lemma_dot_pos_hit(b: Seq<char>)
    ensures
        dot_pos(b) <= b.len(),
        dot_pos(b) < b.len() ==> b[dot_pos(b) as int] == '.',
    decreases b.len(),
{
    if b.len() > 0 && b[0] != '.' {
        lemma_dot_pos_hit(b.drop_first());
    }
}

proof fn lemma_pow10_mono(a: nat, b: nat)
    requires
        a <= b,
    ensures
        pow10(a) <= pow10(b),
    decreases b,
{
    if a < b {
        lemma_pow10_mono(a, (b - 1) as nat);
    }
}

/// A fraction of `f` digits scaled to eight: below 10^8 when `v < 10^f`.
proof fn lemma_pow10_split(v: nat, f: nat)
    requires
        f <= 8,
        v < pow10(f),
    ensures
        v * pow10((8 - f) as nat) < 100_000_000,
{
    reveal_with_fuel(pow10, 9);
    lemma_pow10_add(f, (8 - f) as nat);
    assert(pow10(f) * pow10((8 - f) as nat) == 100_000_000);
    assert(v * pow10((8 - f) as nat) < pow10(f) * pow10((8 - f) as nat)) by (nonlinear_arith)
        requires
            v < pow10(f),
            pow10((8 - f) as nat) > 0,
    ;
}


/// The one-character string of a decimal digit.
fn digit_str(d: u64) -> (r: &'static str)
    requires
        d < 10,
    ensures
        r@ == seq![digit_char(d as nat)],
{
    proof {
        reveal_strlit("0");
        reveal_strlit("1");
        reveal_strlit("2");
        reveal_strlit("3");
        reveal_strlit("4");
        reveal_strlit("5");
        reveal_strlit("6");
        reveal_strlit("7");
        reveal_strlit("8");
        reveal_strlit("9");
    }
    match d {
        0 => "0",
        1 => "1",
        2 => "2",
        3 => "3",
        4 => "4",
        5 => "5",
        6 => "6",
        7 => "7",
        8 => "8",
        _ => "9",
    }
}

/// Appends the decimal digits of `n`.
pub(crate) fn push_nat_digits(out: &mut String, n: u64)
    ensures
        final(out)@ == old(out)@ + nat_digits(n as nat),
    decreases n,
{
    if n >= 10 {
        push_nat_digits(out, n / 10);
    }
    out.append(digit_str(n % 10));
    proof {
        if n >= 10 {
            assert(final(out)@ =~= old(out)@ + nat_digits(n as nat));
        } else {
            assert(final(out)@ =~= old(out)@ + nat_digits(n as nat));
        }
    }
}

/// Appends the last `w` decimal digits of `n`, zero-padded.
fn push_pad_digits(out: &mut String, n: u64, w: u64)
    ensures
        final(out)@ == old(out)@ + pad_digits(n as nat, w as nat),
    decreases w,
{
    if w > 0 {
        push_pad_digits(out, n / 10, w - 1);
        out.append(digit_str(n % 10));
        assert(final(out)@ =~= old(out)@ + pad_digits(n as nat, w as nat));
    } else {
        assert(final(out)@ =~= old(out)@ + pad_digits(n as nat, w as nat));
    }
}

impl Price {
    /// `{integer}.{8 fractional digits}`, with a leading '-' for negative
    /// prices: 10_005_000_000 displays as "100.05000000".
    pub fn to_string(&self) -> (r: String)
        ensures
            r@ == display_price(self@),
    {
        let a: u64 = if self.raw < 0 { (-(self.raw as i128)) as u64 } else { self.raw as u64 };
        assert(a as nat == abs_i64(self@));
        let mut out = String::new();
        if self.raw < 0 {
            proof { reveal_strlit("-"); }
            out.append("-");
        }
        push_nat_digits(&mut out, a / 100_000_000);
        proof { reveal_strlit("."); }
        out.append(".");
        push_pad_digits(&mut out, a % 100_000_000, 8);
        assert(out@ =~= display_price(self@));
        out
    }
}

/// The text of a price read back gives the same price: parse, display and
/// parse again is the identity on every price that parses.
pub proof fn lemma_parse_display_parse(s: Seq<char>)
    requires
        parse_price(s) is Some,
    ensures
        parse_price(display_price(parse_price(s)->0)) == parse_price(s),
{
    lemma_display_parse_round_trip(parse_price(s)->0);
}

} // verus!

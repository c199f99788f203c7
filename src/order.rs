//! Orders, their one-line text form, and the order book that holds them.
use vstd::prelude::*;
use crate::decimal::{
    all_digits, digits_of, is_digit, lemma_digits_of, lemma_leading_zeros, push_digits,
    read_bounded, read_number, read_unsigned, without_plus, zeros, lemma_zeros_value,
};
use crate::text::{
    chars_of, free_of, is_wire_char, lemma_split_extend, lemma_split_single, split_chars,
    split_on, string_of, views,
};

verus! {

/// The side of an order.
#[derive(Debug, Clone, Copy, PartialEq, Eq, Structural)]
pub enum BuySell {
    Buy,
    Sell,
}

/// Why stored text could not be read back; names the field that failed.
#[derive(Debug, Clone, Copy, PartialEq, Eq, Structural)]
pub enum DecodeError {
    /// The line does not hold exactly four comma-separated fields.
    FieldCount,
    /// The id is not an optional `+` and a base-10 number that fits in 32 bits.
    Id,
    /// The side code is neither `B` nor `S`.
    Side,
    /// The quantity is not an optional `+` and a base-10 number that fits in 16 bits.
    Quantity,
    /// The price is not a decimal number of the stored form.
    Price,
}

/// A decimal price: `units / 10^scale`, negated when `negative` is set, and
/// written with exactly `scale` digits after the decimal point.
#[derive(Debug, Clone, Copy, PartialEq, Eq, Structural)]
pub struct Price {
    pub negative: bool,
    pub units: u128,
    pub scale: u32,
}

/// One order of the book.
#[derive(Debug, Clone, Copy, PartialEq, Eq, Structural)]
pub struct Order {
    pub id: u32,
    pub buy_sell: BuySell,
    pub quantity: u16,
    pub price: Price,
}

/// The one-character code of a side.
pub open spec fn side_code(s: BuySell) -> Seq<char> {
    match s {
        BuySell::Buy => seq!['B'],
        BuySell::Sell => seq!['S'],
    }
}

/// The side whose code is `f`, if any.
pub open spec fn side_of(f: Seq<char>) -> Option<BuySell> {
    if f == seq!['B'] {
        Some(BuySell::Buy)
    } else if f == seq!['S'] {
        Some(BuySell::Sell)
    } else {
        None
    }
}

/// The digits of `p.units`, with leading zeros so that at least one digit
/// stands before the decimal point.
pub open spec fn padded_digits(p: Price) -> Seq<char> {
    let d = digits_of(p.units as nat);
    if d.len() <= p.scale {
        zeros((p.scale + 1 - d.len()) as nat) + d
    } else {
        d
    }
}

/// The text of a price without its sign.
pub open spec fn magnitude_text(p: Price) -> Seq<char> {
    let d = padded_digits(p);
    let m = d.len() - p.scale;
    if p.scale == 0 {
        d
    } else {
        d.subrange(0, m) + seq!['.'] + d.subrange(m, d.len() as int)
    }
}

/// The text of a price: `-` when negative, the whole part, and when `scale`
/// is not zero a point and `scale` fractional digits.
pub open spec fn price_text(p: Price) -> Seq<char> {
    if p.negative {
        seq!['-'] + magnitude_text(p)
    } else {
        magnitude_text(p)
    }
}

/// The price that `f` writes: an optional `-` or `+`, one or more digits, then
/// optionally a point and one or more digits; the digits together must fit
/// in 128 bits.
pub open spec fn price_of(f: Seq<char>) -> Option<Price> {
    let negative = f.len() > 0 && f[0] == '-';
    let signed = f.len() > 0 && (f[0] == '-' || f[0] == '+');
    let body = if signed {
        f.drop_first()
    } else {
        f
    };
    let parts = split_on(body, '.');
    let frac = if parts.len() == 2 {
        parts[1]
    } else {
        Seq::<char>::empty()
    };
    let digits = parts[0] + frac;
    if (parts.len() == 1 || (parts.len() == 2 && frac.len() > 0 && frac.len() <= u32::MAX))
        && parts[0].len() > 0 && read_bounded(digits, u128::MAX as nat) is Some {
        Some(
            Price {
                negative,
                units: read_bounded(digits, u128::MAX as nat)->0 as u128,
                scale: frac.len() as u32,
            },
        )
    } else {
        None
    }
}

/// The stored line of an order: id, side code, quantity and price,
/// separated by commas.
pub open spec fn encode_line(o: Order) -> Seq<char> {
    digits_of(o.id as nat) + seq![','] + side_code(o.buy_sell) + seq![','] + digits_of(
        o.quantity as nat,
    ) + seq![','] + price_text(o.price)
}

/// The order that a stored line describes, or the first field that fails.
pub open spec fn decode_line(line: Seq<char>) -> Result<Order, DecodeError> {
    let f = split_on(line, ',');
    if f.len() != 4 {
        Err(DecodeError::FieldCount)
    } else if read_unsigned(f[0], u32::MAX as nat) is None {
        Err(DecodeError::Id)
    } else if side_of(f[1]) is None {
        Err(DecodeError::Side)
    } else if read_unsigned(f[2], u16::MAX as nat) is None {
        Err(DecodeError::Quantity)
    } else if price_of(f[3]) is None {
        Err(DecodeError::Price)
    } else {
        Ok(
            Order {
                id: read_unsigned(f[0], u32::MAX as nat)->0 as u32,
                buy_sell: side_of(f[1])->0,
                quantity: read_unsigned(f[2], u16::MAX as nat)->0 as u16,
                price: price_of(f[3])->0,
            },
        )
    }
}

/// Characters that can stand inside a field of a stored line.
pub open spec fn is_field_char(c: char) -> bool {
    is_digit(c) || c == '.' || c == '-' || c == 'B' || c == 'S'
}

pub open spec fn field_chars(s: Seq<char>) -> bool {
    forall|i: int| 0 <= i < s.len() ==> is_field_char(#[trigger] s[i])
}

proof fn lemma_field_chars_free(s: Seq<char>)
    requires
        field_chars(s),
    ensures
        free_of(s, ','),
        free_of(s, '\n'),
{
    assert forall|i: int| 0 <= i < s.len() implies #[trigger] s[i] != ',' && s[i] != '\n' by {
        assert(is_field_char(s[i]));
    }
}

proof fn lemma_digits_field_chars(n: nat)
    ensures
        field_chars(digits_of(n)),
        free_of(digits_of(n), '.'),
{
    lemma_digits_of(n);
    assert forall|i: int| 0 <= i < digits_of(n).len() implies is_field_char(
        #[trigger] digits_of(n)[i],
    ) && digits_of(n)[i] != '.' by {
        assert(is_digit(digits_of(n)[i]));
    }
}

proof fn lemma_padded_digits(p: Price)
    ensures
        padded_digits(p).len() >= p.scale + 1,
        all_digits(padded_digits(p)),
        crate::decimal::value_of(padded_digits(p)) == p.units,
{
    let d = digits_of(p.units as nat);
    lemma_digits_of(p.units as nat);
    if d.len() <= p.scale {
        let k = (p.scale + 1 - d.len()) as nat;
        lemma_leading_zeros(k, d);
        lemma_zeros_value(k);
        let z = zeros(k) + d;
        assert forall|i: int| 0 <= i < z.len() implies is_digit(#[trigger] z[i]) by {
            if i < k {
                assert(zeros(k)[i] == '0');
            } else {
                assert(z[i] == d[i - k]);
            }
        }
    }
}

/// A price's text reads back as the same price.
pub proof fn lemma_price_round_trip(p: Price)
    ensures
        price_of(price_text(p)) == Some(p),
        field_chars(price_text(p)),
{
    lemma_padded_digits(p);
    let d = padded_digits(p);
    let m = d.len() - p.scale;
    let mag = magnitude_text(p);
    let int_part = d.subrange(0, m);
    let frac = d.subrange(m, d.len() as int);
    assert forall|i: int| 0 <= i < d.len() implies #[trigger] d[i] != '.' && is_field_char(d[i]) by {
        assert(is_digit(d[i]));
    }
    assert(free_of(int_part, '.'));
    assert(free_of(frac, '.'));
    if p.scale == 0 {
        lemma_split_single(d, '.');
        assert(d.subrange(0, m) =~= d);
        assert(d + Seq::<char>::empty() =~= d);
    } else {
        assert(mag =~= int_part.push('.') + frac);
        lemma_split_extend(int_part, frac, '.');
        lemma_split_single(int_part, '.');
        assert(seq![int_part].push(frac) =~= seq![int_part, frac]);
        assert(int_part + frac =~= d);
    }
    assert forall|i: int| 0 <= i < mag.len() implies is_field_char(#[trigger] mag[i]) by {
        if p.scale != 0 {
            if i < m {
                assert(mag[i] == d[i]);
            } else if i > m {
                assert(mag[i] == d[i - 1]);
            }
        }
    }
    let t = price_text(p);
    if p.negative {
        assert(t.drop_first() =~= mag);
        assert forall|i: int| 0 <= i < t.len() implies is_field_char(#[trigger] t[i]) by {
            if i > 0 {
                assert(t[i] == mag[i - 1]);
            }
        }
    } else {
        assert(is_field_char(mag[0]));
        assert(mag[0] != '-' && mag[0] != '+') by {
            assert(is_digit(d[0]));
            if p.scale != 0 {
                assert(mag[0] == d[0]);
            }
        }
    }
}

/// An order's line reads back as the same order.
pub proof fn lemma_order_round_trip(o: Order)
    ensures
        decode_line(encode_line(o)) == Ok::<Order, DecodeError>(o),
{
    lemma_line_facts(o);
}

/// An order's line reads back as the order, is not empty, and holds only
/// characters of stored text other than the newline.
proof fn lemma_line_facts(o: Order)
    ensures
        decode_line(encode_line(o)) == Ok::<Order, DecodeError>(o),
        encode_line(o).len() > 0,
        free_of(encode_line(o), '\n'),
        forall|i: int| 0 <= i < encode_line(o).len() ==> is_wire_char(#[trigger] encode_line(o)[i]),
{
    let a = digits_of(o.id as nat);
    let b = side_code(o.buy_sell);
    let c = digits_of(o.quantity as nat);
    let d = price_text(o.price);
    lemma_digits_field_chars(o.id as nat);
    lemma_digits_field_chars(o.quantity as nat);
    lemma_digits_of(o.id as nat);
    lemma_digits_of(o.quantity as nat);
    lemma_price_round_trip(o.price);
    assert(field_chars(b)) by {
        assert(b.len() == 1);
    }
    lemma_field_chars_free(a);
    lemma_field_chars_free(b);
    lemma_field_chars_free(c);
    lemma_field_chars_free(d);
    let line = encode_line(o);
    assert(line =~= ((a.push(',') + b).push(',') + c).push(',') + d);
    lemma_split_single(a, ',');
    lemma_split_extend(a, b, ',');
    lemma_split_extend(a.push(',') + b, c, ',');
    lemma_split_extend((a.push(',') + b).push(',') + c, d, ',');
    assert(split_on(line, ',') =~= seq![a, b, c, d]);
    assert(side_of(b) == Some(o.buy_sell));
    assert forall|i: int| 0 <= i < line.len() implies is_wire_char(#[trigger] line[i]) && line[i]
        != '\n' by {
        let la = a.len() as int;
        let lb = b.len() as int;
        let lc = c.len() as int;
        if i < la {
            assert(line[i] == a[i]);
            assert(is_field_char(a[i]));
        } else if i == la {
        } else if i < la + 1 + lb {
            assert(line[i] == b[i - la - 1]);
            assert(is_field_char(b[i - la - 1]));
        } else if i == la + 1 + lb {
        } else if i < la + 2 + lb + lc {
            assert(line[i] == c[i - la - 2 - lb]);
            assert(is_field_char(c[i - la - 2 - lb]));
        } else if i == la + 2 + lb + lc {
        } else {
            assert(line[i] == d[i - la - 3 - lb - lc]);
            assert(is_field_char(d[i - la - 3 - lb - lc]));
        }
    }
}

impl BuySell {
    /// The side whose code is `input`: `B` for buy, `S` for sell.
    pub fn from_str(input: &str) -> (r: Result<BuySell, DecodeError>)
        ensures
            r == (match side_of(input@) {
                Some(s) => Ok::<BuySell, DecodeError>(s),
                None => Err(DecodeError::Side),
            }),
    {
        let cs = chars_of(input);
        side_from_chars(cs.as_slice())
    }

    /// The one-character code of `buy_sell`.
    pub fn to_str(buy_sell: &BuySell) -> (r: &'static str)
        ensures
            r@ == side_code(*buy_sell),
    {
        match buy_sell {
            BuySell::Buy => {
                proof {
                    reveal_strlit("B");
                }
                "B"
            },
            BuySell::Sell => {
                proof {
                    reveal_strlit("S");
                }
                "S"
            },
        }
    }
}

fn side_from_chars(f: &[char]) -> (r: Result<BuySell, DecodeError>)
    ensures
        r == (match side_of(f@) {
            Some(s) => Ok::<BuySell, DecodeError>(s),
            None => Err(DecodeError::Side),
        }),
{
    if f.len() == 1 && f[0] == 'B' {
        assert(f@ =~= seq!['B']);
        Ok(BuySell::Buy)
    } else if f.len() == 1 && f[0] == 'S' {
        assert(f@ =~= seq!['S']);
        Ok(BuySell::Sell)
    } else {
        assert(f@ != seq!['B'] && f@ != seq!['S']) by {
            if f@ == seq!['B'] || f@ == seq!['S'] {
                assert(f@.len() == 1);
            }
        }
        Err(DecodeError::Side)
    }
}

/// Appends `src[from..to]`.
fn push_range(out: &mut Vec<char>, src: &[char], from: usize, to: usize)
    requires
        from <= to <= src@.len(),
    ensures
        final(out)@ == old(out)@ + src@.subrange(from as int, to as int),
{
    let mut i: usize = from;
    while i < to
        invariant
            from <= i <= to <= src@.len(),
            out@ == old(out)@ + src@.subrange(from as int, i as int),
        decreases to - i,
    {
        out.push(src[i]);
        assert(src@.subrange(from as int, i as int + 1) =~= src@.subrange(from as int, i as int).push(
            src@[i as int],
        ));
        i = i + 1;
    }
}

/// Appends the text of `p`.
fn write_price(out: &mut Vec<char>, p: &Price)
    ensures
        final(out)@ == old(out)@ + price_text(*p),
{
    if p.negative {
        out.push('-');
    }
    let ghost signed = out@;
    let mut d: Vec<char> = Vec::new();
    push_digits(&mut d, p.units);
    assert(d@ =~= digits_of(p.units as nat));
    let mut padded: Vec<char> = Vec::new();
    while (padded.len() as u64) + (d.len() as u64) < (p.scale as u64) + 1
        invariant
            padded@ =~= zeros(padded@.len()),
            padded@.len() + d@.len() <= p.scale + 1 || padded@.len() == 0,
        decreases p.scale + 1 - padded@.len() - d@.len(),
    {
        padded.push('0');
    }
    let dl = d.len();
    push_range(&mut padded, d.as_slice(), 0, dl);
    proof {
        lemma_digits_of(p.units as nat);
        assert(d@.subrange(0, dl as int) =~= d@);
        if d@.len() <= p.scale {
            assert(padded@ =~= padded_digits(*p));
        } else {
            assert(padded@ =~= d@);
        }
    }
    let n = padded.len();
    let m = n - p.scale as usize;
    push_range(out, padded.as_slice(), 0, m);
    if p.scale != 0 {
        out.push('.');
    }
    push_range(out, padded.as_slice(), m, n);
    proof {
        let mag = magnitude_text(*p);
        if p.scale == 0 {
            assert(padded@.subrange(0, m as int) + padded@.subrange(m as int, n as int) =~= mag);
        }
        assert(out@ =~= signed + mag);
        if p.negative {
            assert(signed =~= old(out)@ + seq!['-']);
        }
    }
}

/// Appends the stored line of `o`.
fn write_order(out: &mut Vec<char>, o: &Order)
    ensures
        final(out)@ == old(out)@ + encode_line(*o),
{
    let ghost start = out@;
    push_digits(out, o.id as u128);
    out.push(',');
    match o.buy_sell {
        BuySell::Buy => out.push('B'),
        BuySell::Sell => out.push('S'),
    }
    out.push(',');
    push_digits(out, o.quantity as u128);
    out.push(',');
    write_price(out, &o.price);
    assert(out@ =~= start + encode_line(*o));
}

/// Reads an unsigned field: an optional `+`, then digits denoting at most `max`.
fn read_unsigned_field(f: &[char], max: u128) -> (r: Option<u128>)
    ensures
        r is Some <==> read_unsigned(f@, max as nat) is Some,
        r is Some ==> r->0 as nat == read_unsigned(f@, max as nat)->0,
{
    let start: usize = if f.len() > 0 && f[0] == '+' {
        1
    } else {
        0
    };
    let mut digits: Vec<char> = Vec::new();
    push_range(&mut digits, f, start, f.len());
    assert(digits@ =~= without_plus(f@));
    read_number(digits.as_slice(), max)
}

/// Reads a price field.
fn read_price(f: &[char]) -> (r: Option<Price>)
    ensures
        r == price_of(f@),
{
    let negative = f.len() > 0 && f[0] == '-';
    let signed = f.len() > 0 && (f[0] == '-' || f[0] == '+');
    let start: usize = if signed {
        1
    } else {
        0
    };
    let mut body: Vec<char> = Vec::new();
    push_range(&mut body, f, start, f.len());
    assert(signed ==> body@ =~= f@.drop_first());
    assert(!signed ==> body@ =~= f@);
    let parts = split_chars(body.as_slice(), '.');
    proof {
        crate::text::lemma_split_len(body@, '.');
    }
    assert(views(parts@)[0] == parts@[0]@);
    if parts.len() == 1 {
        assert(parts@[0]@ + Seq::<char>::empty() =~= parts@[0]@);
        match read_number(parts[0].as_slice(), u128::MAX) {
            Some(units) => Some(Price { negative, units, scale: 0 }),
            None => None,
        }
    } else if parts.len() == 2 {
        assert(views(parts@)[1] == parts@[1]@);
        let fl = parts[1].len();
        if fl == 0 || fl as u64 > u32::MAX as u64 || parts[0].len() == 0 {
            return None;
        }
        let mut digits: Vec<char> = Vec::new();
        push_range(&mut digits, parts[0].as_slice(), 0, parts[0].len());
        push_range(&mut digits, parts[1].as_slice(), 0, fl);
        assert(digits@ =~= parts@[0]@ + parts@[1]@);
        match read_number(digits.as_slice(), u128::MAX) {
            Some(units) => Some(Price { negative, units, scale: fl as u32 }),
            None => None,
        }
    } else {
        None
    }
}

impl Price {
    /// The price that `text` writes (see `price_of`), if any.
    pub fn parse(text: &str) -> (r: Option<Price>)
        ensures
            r == price_of(text@),
    {
        let cs = chars_of(text);
        read_price(cs.as_slice())
    }

    /// The text of this price, as it stands in a stored line.
    pub fn to_text(&self) -> (r: String)
        ensures
            r@ == price_text(*self),
    {
        let mut out: Vec<char> = Vec::new();
        write_price(&mut out, self);
        proof {
            lemma_price_round_trip(*self);
            assert forall|i: int| 0 <= i < out@.len() implies is_wire_char(#[trigger] out@[i]) by {
                assert(is_field_char(out@[i]));
            }
        }
        string_of(out.as_slice())
    }
}

/// Reads one stored line.
fn decode_chars(line: &[char]) -> (r: Result<Order, DecodeError>)
    ensures
        r == decode_line(line@),
{
    let f = split_chars(line, ',');
    if f.len() != 4 {
        return Err(DecodeError::FieldCount);
    }
    assert(views(f@)[0] == f@[0]@);
    assert(views(f@)[1] == f@[1]@);
    assert(views(f@)[2] == f@[2]@);
    assert(views(f@)[3] == f@[3]@);
    let id = match read_unsigned_field(f[0].as_slice(), u32::MAX as u128) {
        Some(v) => v as u32,
        None => {
            return Err(DecodeError::Id);
        },
    };
    let buy_sell = match side_from_chars(f[1].as_slice()) {
        Ok(s) => s,
        Err(e) => {
            return Err(e);
        },
    };
    let quantity = match read_unsigned_field(f[2].as_slice(), u16::MAX as u128) {
        Some(v) => v as u16,
        None => {
            return Err(DecodeError::Quantity);
        },
    };
    let price = match read_price(f[3].as_slice()) {
        Some(p) => p,
        None => {
            return Err(DecodeError::Price);
        },
    };
    Ok(Order { id, buy_sell, quantity, price })
}

impl Order {
    /// The stored line of this order: `id,side,quantity,price`.
    pub fn serialize(&self) -> (r: String)
        ensures
            r@ == encode_line(*self),
    {
        let mut out: Vec<char> = Vec::new();
        write_order(&mut out, self);
        proof {
            lemma_line_facts(*self);
        }
        string_of(out.as_slice())
    }

    /// The order that the stored line `buf` describes; fails with the first
    /// field that does not read.
    pub fn deserialize(buf: &str) -> (r: Result<Order, DecodeError>)
        ensures
            r == decode_line(buf@),
    {
        let cs = chars_of(buf);
        decode_chars(cs.as_slice())
    }
}

/// The stored text of a sequence of orders: their lines joined by newlines,
/// with no newline after the last; empty for no orders.
pub open spec fn join_lines(s: Seq<Order>) -> Seq<char>
    decreases s.len(),
{
    if s.len() == 0 {
        Seq::empty()
    } else if s.len() == 1 {
        encode_line(s[0])
    } else {
        join_lines(s.drop_last()) + seq!['\n'] + encode_line(s.last())
    }
}

/// The orders of a sequence of lines, skipping empty lines, or the error of
/// the first line that fails.
pub open spec fn decode_lines(ls: Seq<Seq<char>>) -> Result<Seq<Order>, DecodeError>
    decreases ls.len(),
{
    if ls.len() == 0 {
        Ok(Seq::empty())
    } else {
        match decode_lines(ls.drop_last()) {
            Err(e) => Err(e),
            Ok(os) => if ls.last().len() == 0 {
                Ok(os)
            } else {
                match decode_line(ls.last()) {
                    Ok(o) => Ok(os.push(o)),
                    Err(e) => Err(e),
                }
            },
        }
    }
}

/// The orders of stored text, read line by line.
pub open spec fn decode_text(t: Seq<char>) -> Result<Seq<Order>, DecodeError> {
    decode_lines(split_on(t, '\n'))
}

/// The largest id in `s`, or 0 when `s` is empty.
pub open spec fn max_id(s: Seq<Order>) -> nat
    decreases s.len(),
{
    if s.len() == 0 {
        0
    } else {
        let m = max_id(s.drop_last());
        if s.last().id > m {
            s.last().id as nat
        } else {
            m
        }
    }
}

/// The id that the next created order gets: one more than the largest id
/// present, so 1 for an empty book.
pub open spec fn next_id_of(s: Seq<Order>) -> nat {
    max_id(s) + 1
}

/// No two orders share an id.
pub open spec fn ids_unique(s: Seq<Order>) -> bool {
    forall|i: int, j: int| 0 <= i < s.len() && 0 <= j < s.len() && i != j ==> #[trigger] s[i].id != #[trigger] s[j].id
}

/// `s` without the orders whose id is `id`, the rest in their order.
pub open spec fn without_id(s: Seq<Order>, id: u32) -> Seq<Order>
    decreases s.len(),
{
    if s.len() == 0 {
        s
    } else if s.last().id == id {
        without_id(s.drop_last(), id)
    } else {
        without_id(s.drop_last(), id).push(s.last())
    }
}

pub proof fn lemma_max_id(s: Seq<Order>)
    ensures
        forall|i: int| 0 <= i < s.len() ==> #[trigger] s[i].id <= max_id(s),
        max_id(s) <= u32::MAX,
    decreases s.len(),
{
    if s.len() > 0 {
        lemma_max_id(s.drop_last());
        assert forall|i: int| 0 <= i < s.len() implies #[trigger] s[i].id <= max_id(s) by {
            if i < s.len() - 1 {
                assert(s[i] == s.drop_last()[i]);
            }
        }
    }
}

proof fn lemma_join_lines(s: Seq<Order>)
    ensures
        s.len() > 0 ==> split_on(join_lines(s), '\n') == s.map_values(|o: Order| encode_line(o)),
        forall|i: int| 0 <= i < join_lines(s).len() ==> is_wire_char(#[trigger] join_lines(s)[i]),
    decreases s.len(),
{
    if s.len() == 1 {
        lemma_line_facts(s[0]);
        lemma_split_single(encode_line(s[0]), '\n');
        assert(s.map_values(|o: Order| encode_line(o)) =~= seq![encode_line(s[0])]);
    } else if s.len() > 1 {
        let p = s.drop_last();
        lemma_join_lines(p);
        lemma_line_facts(s.last());
        lemma_split_extend(join_lines(p), encode_line(s.last()), '\n');
        assert(join_lines(s) =~= join_lines(p).push('\n') + encode_line(s.last()));
        assert(s.map_values(|o: Order| encode_line(o)) =~= p.map_values(|o: Order| encode_line(o)).push(
            encode_line(s.last()),
        ));
        let t = join_lines(s);
        let lp = join_lines(p).len() as int;
        assert forall|i: int| 0 <= i < t.len() implies is_wire_char(#[trigger] t[i]) by {
            if i < lp {
                assert(t[i] == join_lines(p)[i]);
            } else if i > lp {
                assert(t[i] == encode_line(s.last())[i - lp - 1]);
            }
        }
    }
}

/// Reading back the stored text of any sequence of orders gives the same
/// orders in the same order.
pub proof fn lemma_book_round_trip(s: Seq<Order>)
    ensures
        decode_text(join_lines(s)) == Ok::<Seq<Order>, DecodeError>(s),
    decreases s.len(),
{
    if s.len() == 0 {
        lemma_empty_book();
        assert(s =~= Seq::<Order>::empty());
    } else {
        lemma_join_lines(s);
        lemma_decode_encoded(s);
    }
}

proof fn lemma_decode_encoded(s: Seq<Order>)
    ensures
        decode_lines(s.map_values(|o: Order| encode_line(o))) == Ok::<Seq<Order>, DecodeError>(s),
    decreases s.len(),
{
    let ls = s.map_values(|o: Order| encode_line(o));
    if s.len() == 0 {
        assert(ls.len() == 0);
        assert(s =~= Seq::<Order>::empty());
    } else {
        lemma_decode_encoded(s.drop_last());
        lemma_line_facts(s.last());
        assert(ls.drop_last() =~= s.drop_last().map_values(|o: Order| encode_line(o)));
        assert(ls.last() == encode_line(s.last()));
        assert(s.drop_last().push(s.last()) =~= s);
    }
}

/// An empty book is stored as empty text, and empty text reads as an empty book.
pub proof fn lemma_empty_book()
    ensures
        join_lines(Seq::<Order>::empty()) == Seq::<char>::empty(),
        decode_text(Seq::<char>::empty()) == Ok::<Seq<Order>, DecodeError>(Seq::<Order>::empty()),
{
    let ls = split_on(Seq::<char>::empty(), '\n');
    assert(ls.len() == 1 && ls.last().len() == 0);
    assert(ls.drop_last() =~= Seq::<Seq<char>>::empty());
    assert(decode_lines(ls.drop_last()) == Ok::<Seq<Order>, DecodeError>(Seq::<Order>::empty()));
}

/// Deleting an id that one order of a book with unique ids holds removes
/// exactly that order; the others keep their fields and their order.
pub proof fn lemma_delete_present(s: Seq<Order>, i: int)
    requires
        ids_unique(s),
        0 <= i < s.len(),
    ensures
        without_id(s, s[i].id) == s.remove(i),
        without_id(s, s[i].id).len() == s.len() - 1,
    decreases s.len(),
{
    let p = s.drop_last();
    assert(ids_unique(p)) by {
        assert forall|a: int, b: int| 0 <= a < p.len() && 0 <= b < p.len() && a != b implies #[trigger] p[a].id != #[trigger] p[b].id by {
            assert(p[a] == s[a] && p[b] == s[b]);
        }
    }
    if i == s.len() - 1 {
        assert forall|j: int| 0 <= j < p.len() implies #[trigger] p[j].id != s[i].id by {
            assert(p[j] == s[j]);
        }
        lemma_delete_absent(p, s[i].id);
        assert(s.remove(i) =~= p);
    } else {
        lemma_delete_present(p, i);
        assert(p[i] == s[i]);
        assert(s.last().id != s[i].id);
        assert(s.remove(i) =~= p.remove(i).push(s.last()));
    }
}

/// Deleting an id that no order holds leaves the book as it is.
pub proof fn lemma_delete_absent(s: Seq<Order>, id: u32)
    requires
        forall|j: int| 0 <= j < s.len() ==> #[trigger] s[j].id != id,
    ensures
        without_id(s, id) == s,
    decreases s.len(),
{
    if s.len() > 0 {
        let p = s.drop_last();
        assert forall|j: int| 0 <= j < p.len() implies #[trigger] p[j].id != id by {
            assert(p[j] == s[j]);
        }
        lemma_delete_absent(p, id);
        assert(s.last().id != id);
        assert(p.push(s.last()) =~= s);
    }
}

/// Removing one order keeps the ids unique.
proof fn lemma_remove_unique(s: Seq<Order>, i: int)
    requires
        ids_unique(s),
        0 <= i < s.len(),
    ensures
        ids_unique(s.remove(i)),
{
    let r = s.remove(i);
    assert forall|a: int, b: int| 0 <= a < r.len() && 0 <= b < r.len() && a != b implies #[trigger] r[a].id != #[trigger] r[b].id by {
        let sa = if a < i { a } else { a + 1 };
        let sb = if b < i { b } else { b + 1 };
        assert(r[a] == s[sa] && r[b] == s[sb]);
    }
}

/// Deleting by id keeps the ids of a book unique.
proof fn lemma_delete_unique(s: Seq<Order>, id: u32)
    requires
        ids_unique(s),
    ensures
        ids_unique(without_id(s, id)),
{
    if exists|i: int| 0 <= i < s.len() && s[i].id == id {
        let i = choose|i: int| 0 <= i < s.len() && s[i].id == id;
        lemma_delete_present(s, i);
        lemma_remove_unique(s, i);
    } else {
        lemma_delete_absent(s, id);
    }
}

/// A book of orders, kept in the order in which they were added.
#[derive(Debug)]
pub struct OrderBook {
    orders: Vec<Order>,
}

impl View for OrderBook {
    type V = Seq<Order>;

    closed spec fn view(&self) -> Seq<Order> {
        self.orders@
    }
}

impl OrderBook {
    /// An empty book.
    pub fn new() -> (r: OrderBook)
        ensures
            r@ == Seq::<Order>::empty(),
            ids_unique(r@),
    {
        OrderBook { orders: Vec::new() }
    }

    /// The orders of the book, in book order.
    pub fn orders(&self) -> (r: &Vec<Order>)
        ensures
            r@ == self@,
    {
        &self.orders
    }

    /// The stored text of the book: one line per order, joined by newlines,
    /// with no newline after the last; empty for an empty book.
    pub fn serialize(&self) -> (r: String)
        ensures
            r@ == join_lines(self@),
    {
        let mut out: Vec<char> = Vec::new();
        let n = self.orders.len();
        let mut i: usize = 0;
        while i < n
            invariant
                n == self.orders@.len(),
                0 <= i <= n,
                out@ == join_lines(self.orders@.subrange(0, i as int)),
            decreases n - i,
        {
            let ghost before = out@;
            if i > 0 {
                out.push('\n');
            }
            write_order(&mut out, &self.orders[i]);
            proof {
                let q = self.orders@.subrange(0, i as int + 1);
                assert(q.drop_last() =~= self.orders@.subrange(0, i as int));
                if i == 0 {
                    assert(before =~= Seq::<char>::empty());
                    assert(out@ =~= encode_line(q[0]));
                } else {
                    assert(out@ =~= before + seq!['\n'] + encode_line(q.last()));
                }
            }
            i = i + 1;
        }
        proof {
            assert(self.orders@.subrange(0, n as int) =~= self.orders@);
            lemma_join_lines(self.orders@);
        }
        string_of(out.as_slice())
    }

    /// The book that stored text `buf` holds: each non-empty line read as an
    /// order, in order; fails with the error of the first line that does not
    /// read.
    pub fn deserialize(buf: &str) -> (r: Result<OrderBook, DecodeError>)
        ensures
            match r {
                Ok(b) => decode_text(buf@) == Ok::<Seq<Order>, DecodeError>(b@),
                Err(e) => decode_text(buf@) == Err::<Seq<Order>, DecodeError>(e),
            },
    {
        let cs = chars_of(buf);
        let lines = split_chars(cs.as_slice(), '\n');
        let mut orders: Vec<Order> = Vec::new();
        let mut i: usize = 0;
        assert(views(lines@).subrange(0, 0) =~= Seq::<Seq<char>>::empty());
        while i < lines.len()
            invariant
                0 <= i <= lines@.len(),
                views(lines@) == split_on(buf@, '\n'),
                decode_lines(views(lines@).subrange(0, i as int)) == Ok::<Seq<Order>, DecodeError>(
                    orders@,
                ),
            decreases lines@.len() - i,
        {
            let ghost q = views(lines@).subrange(0, i as int + 1);
            assert(q.drop_last() =~= views(lines@).subrange(0, i as int));
            assert(q.last() == lines@[i as int]@);
            if lines[i].len() > 0 {
                match decode_chars(lines[i].as_slice()) {
                    Ok(o) => {
                        orders.push(o);
                    },
                    Err(e) => {
                        proof {
                            lemma_decode_lines_err(views(lines@), i as int + 1, e);
                            assert(views(lines@).subrange(0, lines@.len() as int) =~= views(lines@));
                        }
                        return Err(e);
                    },
                }
            }
            i = i + 1;
        }
        assert(views(lines@).subrange(0, i as int) =~= views(lines@));
        Ok(OrderBook { orders })
    }

    /// The id that `create_order` would give now: one more than the largest
    /// id in the book, or 1 for an empty book; `None` when that exceeds
    /// the range of ids.
    pub fn next_id(&self) -> (r: Option<u32>)
        ensures
            r is Some <==> next_id_of(self@) <= u32::MAX,
            r is Some ==> r->0 == next_id_of(self@),
    {
        let mut m: u32 = 0;
        let mut i: usize = 0;
        while i < self.orders.len()
            invariant
                0 <= i <= self.orders@.len(),
                m == max_id(self.orders@.subrange(0, i as int)),
            decreases self.orders@.len() - i,
        {
            assert(self.orders@.subrange(0, i as int + 1).drop_last() =~= self.orders@.subrange(
                0,
                i as int,
            ));
            if self.orders[i].id > m {
                m = self.orders[i].id;
            }
            i = i + 1;
        }
        assert(self.orders@.subrange(0, i as int) =~= self.orders@);
        if m == u32::MAX {
            None
        } else {
            Some(m + 1)
        }
    }

    /// Adds an order with the next id (see `next_id`) at the end of the book
    /// and returns that id.
    pub fn create_order(&mut self, buy_sell: BuySell, quantity: u16, price: Price) -> (r: u32)
        requires
            next_id_of(old(self)@) <= u32::MAX,
        ensures
            r == next_id_of(old(self)@),
            final(self)@ == old(self)@.push(Order { id: r, buy_sell, quantity, price }),
            max_id(final(self)@) == r,
            ids_unique(old(self)@) ==> ids_unique(final(self)@),
    {
        let id = match self.next_id() {
            Some(v) => v,
            None => 0,
        };
        self.orders.push(Order { id, buy_sell, quantity, price });
        proof {
            let s = old(self)@;
            let t = self.orders@;
            lemma_max_id(s);
            assert(t.drop_last() =~= s);
            if ids_unique(s) {
                assert forall|a: int, b: int| 0 <= a < t.len() && 0 <= b < t.len() && a != b implies #[trigger] t[a].id != #[trigger] t[b].id by {
                    if a < s.len() && b < s.len() {
                        assert(t[a] == s[a] && t[b] == s[b]);
                    } else if a < s.len() {
                        assert(t[a] == s[a]);
                    } else {
                        assert(t[b] == s[b]);
                    }
                }
            }
        }
        id
    }

    /// Removes the orders whose id is `order_id`, keeping the others in their
    /// order; an id that no order holds leaves the book as it is.
    pub fn delete_order(&mut self, order_id: u32)
        ensures
            final(self)@ == without_id(old(self)@, order_id),
            ids_unique(old(self)@) ==> ids_unique(final(self)@),
    {
        let mut kept: Vec<Order> = Vec::new();
        let mut i: usize = 0;
        while i < self.orders.len()
            invariant
                0 <= i <= self.orders@.len(),
                self.orders@ == old(self)@,
                kept@ == without_id(self.orders@.subrange(0, i as int), order_id),
            decreases self.orders@.len() - i,
        {
            assert(self.orders@.subrange(0, i as int + 1).drop_last() =~= self.orders@.subrange(
                0,
                i as int,
            ));
            if self.orders[i].id != order_id {
                kept.push(self.orders[i]);
            }
            i = i + 1;
        }
        assert(self.orders@.subrange(0, i as int) =~= self.orders@);
        self.orders = kept;
        proof {
            if ids_unique(old(self)@) {
                lemma_delete_unique(old(self)@, order_id);
            }
        }
    }
}

/// Once a prefix of the lines fails with `e`, all of them do.
proof fn lemma_decode_lines_err(ls: Seq<Seq<char>>, k: int, e: DecodeError)
    requires
        0 <= k <= ls.len(),
        decode_lines(ls.subrange(0, k)) == Err::<Seq<Order>, DecodeError>(e),
    ensures
        decode_lines(ls.subrange(0, ls.len() as int)) == Err::<Seq<Order>, DecodeError>(e),
    decreases ls.len() - k,
{
    if k < ls.len() {
        assert(ls.subrange(0, k + 1).drop_last() =~= ls.subrange(0, k));
        lemma_decode_lines_err(ls, k + 1, e);
    }
}

} // verus!

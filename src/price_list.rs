//! Shop price tables of items, and the lookup of the entries that a price
//! matches.

use vstd::prelude::*;
use std::num::ParseIntError;
use crate::table::{fields_view, read_records, records_of};

verus! {

/// The standard library's error for a number that could not be read; it is
/// only carried, never looked into.
#[verifier::external_type_specification]
#[verifier::external_body]
pub struct ExParseIntError(ParseIntError);

/// Whether an item is plain, blessed or cursed.
#[derive(Clone, Copy, PartialEq, Eq, Debug, Structural)]
pub enum ItemState {
    Normal,
    Blessed,
    Cursed,
}

/// The mark shown beside an item in each state.
pub open spec fn state_str(s: ItemState) -> &'static str {
    match s {
        ItemState::Normal => "",
        ItemState::Blessed => "🔔",
        ItemState::Cursed => "💀",
    }
}

impl ItemState {
    /// The mark shown beside an item in this state: none for a plain item.
    pub fn get_state_str(&self) -> (r: &'static str)
        ensures
            r@ == state_str(*self)@,
    {
        match self {
            ItemState::Normal => "",
            ItemState::Blessed => "🔔",
            ItemState::Cursed => "💀",
        }
    }
}

/// A bracelet and its shop prices.
#[derive(Clone, Copy, PartialEq, Eq, Debug)]
pub struct Bracelet {
    pub name: &'static str,
    pub state: ItemState,
    pub buy: u16,
    pub sell: u16,
}

/// A herb and its shop prices.
#[derive(Clone, Copy, PartialEq, Eq, Debug)]
pub struct Grass {
    pub name: &'static str,
    pub state: ItemState,
    pub buy: u16,
    pub sell: u16,
}

/// A scroll and its shop prices.
#[derive(Clone, Copy, PartialEq, Eq, Debug)]
pub struct Scroll {
    pub name: &'static str,
    pub state: ItemState,
    pub buy: u16,
    pub sell: u16,
}

/// A staff with `count` uses left, and its shop prices.
#[derive(Clone, Copy, PartialEq, Eq, Debug)]
pub struct Staff {
    pub name: &'static str,
    pub state: ItemState,
    pub buy: u16,
    pub sell: u16,
    pub count: u16,
}

/// A pot of capacity `size`, and its shop prices.
#[derive(Clone, Copy, PartialEq, Eq, Debug)]
pub struct Pot {
    pub name: &'static str,
    pub state: ItemState,
    pub buy: u16,
    pub sell: u16,
    pub size: u16,
}

/// An entry with prices `buy` and `sell` is listed for the price typed in:
/// every entry when nothing was typed, those with that buying or selling price
/// when a number was, and none when the text is no number.
pub open spec fn price_selects(price: Result<Option<u16>, ParseIntError>, buy: u16, sell: u16) -> bool {
    match price {
        Ok(None) => true,
        Ok(Some(p)) => buy == p || sell == p,
        Err(_) => false,
    }
}

fn selects(price: &Result<Option<u16>, ParseIntError>, buy: u16, sell: u16) -> (r: bool)
    ensures
        r == price_selects(*price, buy, sell),
{
    match price {
        Ok(None) => true,
        Ok(Some(p)) => buy == *p || sell == *p,
        Err(_) => false,
    }
}

/// The bracelets of `list` that the price selects, in order.
pub fn filtered_bracelets(list: &Vec<Bracelet>, price: Result<Option<u16>, ParseIntError>) -> (r:
    Vec<Bracelet>)
    ensures
        r@ == list@.filter(|b: Bracelet| price_selects(price, b.buy, b.sell)),
{
    let ghost pred = |b: Bracelet| price_selects(price, b.buy, b.sell);
    let mut r: Vec<Bracelet> = Vec::new();
    let mut i: usize = 0;
    while i < list.len()
        invariant
            i <= list@.len(),
            pred == (|b: Bracelet| price_selects(price, b.buy, b.sell)),
            r@ == list@.take(i as int).filter(pred),
        decreases list@.len() - i,
    {
        let item = list[i];
        proof {
            reveal(Seq::filter);
            assert(list@.take(i + 1).drop_last() =~= list@.take(i as int));
        }
        if selects(&price, item.buy, item.sell) {
            r.push(item);
        }
        i += 1;
    }
    proof {
        assert(list@.take(i as int) =~= list@);
    }
    r
}

/// The herbs of `list` that the price selects, in order.
pub fn filtered_grasses(list: &Vec<Grass>, price: Result<Option<u16>, ParseIntError>) -> (r:
    Vec<Grass>)
    ensures
        r@ == list@.filter(|b: Grass| price_selects(price, b.buy, b.sell)),
{
    let ghost pred = |b: Grass| price_selects(price, b.buy, b.sell);
    let mut r: Vec<Grass> = Vec::new();
    let mut i: usize = 0;
    while i < list.len()
        invariant
            i <= list@.len(),
            pred == (|b: Grass| price_selects(price, b.buy, b.sell)),
            r@ == list@.take(i as int).filter(pred),
        decreases list@.len() - i,
    {
        let item = list[i];
        proof {
            reveal(Seq::filter);
            assert(list@.take(i + 1).drop_last() =~= list@.take(i as int));
        }
        if selects(&price, item.buy, item.sell) {
            r.push(item);
        }
        i += 1;
    }
    proof {
        assert(list@.take(i as int) =~= list@);
    }
    r
}

/// The scrolls of `list` that the price selects, in order.
pub fn filtered_scrolls(list: &Vec<Scroll>, price: Result<Option<u16>, ParseIntError>) -> (r:
    Vec<Scroll>)
    ensures
        r@ == list@.filter(|b: Scroll| price_selects(price, b.buy, b.sell)),
{
    let ghost pred = |b: Scroll| price_selects(price, b.buy, b.sell);
    let mut r: Vec<Scroll> = Vec::new();
    let mut i: usize = 0;
    while i < list.len()
        invariant
            i <= list@.len(),
            pred == (|b: Scroll| price_selects(price, b.buy, b.sell)),
            r@ == list@.take(i as int).filter(pred),
        decreases list@.len() - i,
    {
        let item = list[i];
        proof {
            reveal(Seq::filter);
            assert(list@.take(i + 1).drop_last() =~= list@.take(i as int));
        }
        if selects(&price, item.buy, item.sell) {
            r.push(item);
        }
        i += 1;
    }
    proof {
        assert(list@.take(i as int) =~= list@);
    }
    r
}

/// The staves of `list` that the price selects, in order.
pub fn filtered_staves(list: &Vec<Staff>, price: Result<Option<u16>, ParseIntError>) -> (r:
    Vec<Staff>)
    ensures
        r@ == list@.filter(|b: Staff| price_selects(price, b.buy, b.sell)),
{
    let ghost pred = |b: Staff| price_selects(price, b.buy, b.sell);
    let mut r: Vec<Staff> = Vec::new();
    let mut i: usize = 0;
    while i < list.len()
        invariant
            i <= list@.len(),
            pred == (|b: Staff| price_selects(price, b.buy, b.sell)),
            r@ == list@.take(i as int).filter(pred),
        decreases list@.len() - i,
    {
        let item = list[i];
        proof {
            reveal(Seq::filter);
            assert(list@.take(i + 1).drop_last() =~= list@.take(i as int));
        }
        if selects(&price, item.buy, item.sell) {
            r.push(item);
        }
        i += 1;
    }
    proof {
        assert(list@.take(i as int) =~= list@);
    }
    r
}

/// The pots of `list` that the price selects, in order.
pub fn filtered_pots(list: &Vec<Pot>, price: Result<Option<u16>, ParseIntError>) -> (r:
    Vec<Pot>)
    ensures
        r@ == list@.filter(|b: Pot| price_selects(price, b.buy, b.sell)),
{
    let ghost pred = |b: Pot| price_selects(price, b.buy, b.sell);
    let mut r: Vec<Pot> = Vec::new();
    let mut i: usize = 0;
    while i < list.len()
        invariant
            i <= list@.len(),
            pred == (|b: Pot| price_selects(price, b.buy, b.sell)),
            r@ == list@.take(i as int).filter(pred),
        decreases list@.len() - i,
    {
        let item = list[i];
        proof {
            reveal(Seq::filter);
            assert(list@.take(i + 1).drop_last() =~= list@.take(i as int));
        }
        if selects(&price, item.buy, item.sell) {
            r.push(item);
        }
        i += 1;
    }
    proof {
        assert(list@.take(i as int) =~= list@);
    }
    r
}

/// Whether `c` is an ASCII decimal digit.
pub open spec fn is_digit(c: char) -> bool {
    '0' <= c <= '9'
}

/// The number that the decimal digits `d` write.
pub open spec fn digits_value(d: Seq<char>) -> nat
    decreases d.len(),
{
    if d.len() == 0 {
        0
    } else {
        digits_value(d.drop_last()) * 10 + (d.last() as nat - '0' as nat) as nat
    }
}

/// The `u16` that `s` writes in decimal, after an optional `+`; none when
/// there is no digit, a character is no digit, or the number is too large.
pub open spec fn decimal_u16(s: Seq<char>) -> Option<u16> {
    let d = if s.len() > 0 && s[0] == '+' {
        s.drop_first()
    } else {
        s
    };
    if d.len() > 0 && (forall|i: int| 0 <= i < d.len() ==> is_digit(#[trigger] d[i]))
        && digits_value(d) <= u16::MAX {
        Some(digits_value(d) as u16)
    } else {
        None
    }
}

/// Relies on `u16::from_str` (`str::parse`): it reads an optional `+`
/// followed by decimal digits whose value fits in a `u16`, and fails on
/// anything else.
#[verifier::external_body]
fn parse_u16(s: &str) -> (r: Result<u16, ParseIntError>)
    ensures
        match r {
            Ok(v) => decimal_u16(s@) == Some(v),
            Err(_) => decimal_u16(s@) is None,
        },
{
    s.parse::<u16>()
}

/// The price typed in: nothing for empty text, else the number it writes, or
/// the error of reading it.
pub fn price_of_text(text: &str) -> (r: Result<Option<u16>, ParseIntError>)
    ensures
        match r {
            Ok(None) => text@.len() == 0,
            Ok(Some(v)) => text@.len() > 0 && decimal_u16(text@) == Some(v),
            Err(_) => text@.len() > 0 && decimal_u16(text@) is None,
        },
{
    if text.unicode_len() == 0 {
        Ok(None)
    } else {
        match parse_u16(text) {
            Ok(v) => Ok(Some(v)),
            Err(e) => Err(e),
        }
    }
}

/// The entries that the records of a table give, row after row; none when
/// some row gives none.
pub open spec fn collect_rows<T>(
    recs: Seq<Seq<Seq<char>>>,
    row: spec_fn(Seq<Seq<char>>) -> Option<Seq<T>>,
) -> Option<Seq<T>>
    decreases recs.len(),
{
    if recs.len() == 0 {
        Some(Seq::empty())
    } else {
        match (collect_rows(recs.drop_last(), row), row(recs.last())) {
            (Some(a), Some(b)) => Some(a + b),
            _ => None,
        }
    }
}

proof fn lemma_collect_rows_none<T>(
    recs: Seq<Seq<Seq<char>>>,
    row: spec_fn(Seq<Seq<char>>) -> Option<Seq<T>>,
    i: int,
)
    requires
        0 <= i <= recs.len(),
        collect_rows(recs.take(i), row) is None,
    ensures
        collect_rows(recs, row) is None,
    decreases recs.len() - i,
{
    if i < recs.len() {
        assert(recs.take(i + 1).drop_last() =~= recs.take(i));
        lemma_collect_rows_none(recs, row, i + 1);
    } else {
        assert(recs.take(i) =~= recs);
    }
}

/// The selling price of an item bought for `buy`: two fifths of it.
pub open spec fn sell_of(buy: u16) -> u16 {
    (buy * 2 / 5) as u16
}

/// A cursed item's price: 87% of the plain one, rounded down.
pub open spec fn cursed_price(p: u16) -> u16 {
    (p * 87 / 100) as u16
}

fn sell_price(buy: u16) -> (r: u16)
    ensures
        r == sell_of(buy),
{
    (buy as u32 * 2 / 5) as u16
}

fn cursed(p: u16) -> (r: u16)
    ensures
        r == cursed_price(p),
{
    (p as u32 * 87 / 100) as u16
}

/// A bracelet as plain values: name, state, buying and selling price.
impl View for Bracelet {
    type V = (Seq<char>, ItemState, u16, u16);

    open spec fn view(&self) -> Self::V {
        (self.name@, self.state, self.buy, self.sell)
    }
}

/// A herb as plain values: name, state, buying and selling price.
impl View for Grass {
    type V = (Seq<char>, ItemState, u16, u16);

    open spec fn view(&self) -> Self::V {
        (self.name@, self.state, self.buy, self.sell)
    }
}

/// A scroll as plain values: name, state, buying and selling price.
impl View for Scroll {
    type V = (Seq<char>, ItemState, u16, u16);

    open spec fn view(&self) -> Self::V {
        (self.name@, self.state, self.buy, self.sell)
    }
}

/// A staff as plain values: name, state, buying and selling price, uses left.
impl View for Staff {
    type V = (Seq<char>, ItemState, u16, u16, u16);

    open spec fn view(&self) -> Self::V {
        (self.name@, self.state, self.buy, self.sell, self.count)
    }
}

/// A pot as plain values: name, state, buying and selling price, capacity.
impl View for Pot {
    type V = (Seq<char>, ItemState, u16, u16, u16);

    open spec fn view(&self) -> Self::V {
        (self.name@, self.state, self.buy, self.sell, self.size)
    }
}

/// The entries of a bracelet record `name,buy`: plain, and cursed.
pub open spec fn bracelet_row(f: Seq<Seq<char>>) -> Option<Seq<(Seq<char>, ItemState, u16, u16)>> {
    if f.len() < 2 || decimal_u16(f[1]) is None {
        None
    } else {
        let buy = decimal_u16(f[1])->0;
        let sell = sell_of(buy);
        Some(
            seq![
                (f[0], ItemState::Normal, buy, sell),
                (f[0], ItemState::Cursed, cursed_price(buy), cursed_price(sell)),
            ],
        )
    }
}

/// The price table of bracelets, from records `name,buy`; none when a record
/// lacks a field or its price is no number.
pub fn bracelets(csv: &'static str) -> (r: Option<Vec<Bracelet>>)
    ensures
        match r {
            Some(list) => collect_rows(records_of(csv@), |f| bracelet_row(f)) == Some(
                list@.map_values(|b: Bracelet| b@),
            ),
            None => collect_rows(records_of(csv@), |f| bracelet_row(f)) is None,
        },
{
    let recs = read_records(csv);
    let ghost rows = fields_view(recs@);
    let ghost row = |f| bracelet_row(f);
    let mut list: Vec<Bracelet> = Vec::new();
    let mut i: usize = 0;
    proof {
        assert(rows.take(0) =~= Seq::<Seq<Seq<char>>>::empty());
        assert(list@.map_values(|b: Bracelet| b@) =~= Seq::empty());
    }
    while i < recs.len()
        invariant
            i <= recs@.len(),
            rows == fields_view(recs@),
            rows == records_of(csv@),
            row == (|f| bracelet_row(f)),
            collect_rows(rows.take(i as int), row) == Some(list@.map_values(|b: Bracelet| b@)),
        decreases recs@.len() - i,
    {
        let f = &recs[i];
        proof {
            assert(rows.take(i + 1).drop_last() =~= rows.take(i as int));
            assert(rows[i as int] == f@.map_values(|x: &'static str| x@));
        }
        if f.len() < 2 {
            proof {
                lemma_collect_rows_none(rows, row, i + 1);
            }
            return None;
        }
        let buy = match parse_u16(f[1]) {
            Ok(b) => b,
            Err(_) => {
                proof {
                    lemma_collect_rows_none(rows, row, i + 1);
                }
                return None;
            },
        };
        let sell = sell_price(buy);
        let ghost before = list@.map_values(|b: Bracelet| b@);
        list.push(Bracelet { name: f[0], state: ItemState::Normal, buy, sell });
        list.push(Bracelet { name: f[0], state: ItemState::Cursed, buy: cursed(buy), sell: cursed(sell) });
        proof {
            assert(list@.map_values(|b: Bracelet| b@) =~= before + bracelet_row(rows[i as int])->0);
        }
        i += 1;
    }
    proof {
        assert(rows.take(i as int) =~= rows);
    }
    Some(list)
}

/// The entries of a herb record `name,buy,sell`: plain, blessed at double
/// prices, and cursed; none when a doubled price does not fit.
pub open spec fn grass_row(f: Seq<Seq<char>>) -> Option<Seq<(Seq<char>, ItemState, u16, u16)>> {
    if f.len() < 3 || decimal_u16(f[1]) is None || decimal_u16(f[2]) is None {
        None
    } else {
        let buy = decimal_u16(f[1])->0;
        let sell = decimal_u16(f[2])->0;
        if buy * 2 > u16::MAX || sell * 2 > u16::MAX {
            None
        } else {
            Some(
                seq![
                    (f[0], ItemState::Normal, buy, sell),
                    (f[0], ItemState::Blessed, (buy * 2) as u16, (sell * 2) as u16),
                    (f[0], ItemState::Cursed, cursed_price(buy), cursed_price(sell)),
                ],
            )
        }
    }
}

/// The price table of herbs, from records `name,buy,sell`; none when a record
/// lacks a field, a price is no number, or a doubled price does not fit.
pub fn grasses(csv: &'static str) -> (r: Option<Vec<Grass>>)
    ensures
        match r {
            Some(list) => collect_rows(records_of(csv@), |f| grass_row(f)) == Some(
                list@.map_values(|b: Grass| b@),
            ),
            None => collect_rows(records_of(csv@), |f| grass_row(f)) is None,
        },
{
    let recs = read_records(csv);
    let ghost rows = fields_view(recs@);
    let ghost row = |f| grass_row(f);
    let mut list: Vec<Grass> = Vec::new();
    let mut i: usize = 0;
    proof {
        assert(rows.take(0) =~= Seq::<Seq<Seq<char>>>::empty());
        assert(list@.map_values(|b: Grass| b@) =~= Seq::empty());
    }
    while i < recs.len()
        invariant
            i <= recs@.len(),
            rows == fields_view(recs@),
            rows == records_of(csv@),
            row == (|f| grass_row(f)),
            collect_rows(rows.take(i as int), row) == Some(list@.map_values(|b: Grass| b@)),
        decreases recs@.len() - i,
    {
        let f = &recs[i];
        proof {
            assert(rows.take(i + 1).drop_last() =~= rows.take(i as int));
            assert(rows[i as int] == f@.map_values(|x: &'static str| x@));
        }
        if f.len() < 3 {
            proof {
                lemma_collect_rows_none(rows, row, i + 1);
            }
            return None;
        }
        let (buy, sell) = match (parse_u16(f[1]), parse_u16(f[2])) {
            (Ok(b), Ok(s)) => (b, s),
            _ => {
                proof {
                    lemma_collect_rows_none(rows, row, i + 1);
                }
                return None;
            },
        };
        if buy > u16::MAX / 2 || sell > u16::MAX / 2 {
            proof {
                lemma_collect_rows_none(rows, row, i + 1);
            }
            return None;
        }
        let ghost before = list@.map_values(|b: Grass| b@);
        list.push(Grass { name: f[0], state: ItemState::Normal, buy, sell });
        list.push(Grass { name: f[0], state: ItemState::Blessed, buy: buy * 2, sell: sell * 2 });
        list.push(Grass { name: f[0], state: ItemState::Cursed, buy: cursed(buy), sell: cursed(sell) });
        proof {
            assert(list@.map_values(|b: Grass| b@) =~= before + grass_row(rows[i as int])->0);
        }
        i += 1;
    }
    proof {
        assert(rows.take(i as int) =~= rows);
    }
    Some(list)
}

/// The entries of a scroll record `name,buy`: plain, blessed at double
/// prices, and cursed; none when a doubled price does not fit.
pub open spec fn scroll_row(f: Seq<Seq<char>>) -> Option<Seq<(Seq<char>, ItemState, u16, u16)>> {
    if f.len() < 2 || decimal_u16(f[1]) is None {
        None
    } else {
        let buy = decimal_u16(f[1])->0;
        let sell = sell_of(buy);
        if buy * 2 > u16::MAX {
            None
        } else {
            Some(
                seq![
                    (f[0], ItemState::Normal, buy, sell),
                    (f[0], ItemState::Blessed, (buy * 2) as u16, (sell * 2) as u16),
                    (f[0], ItemState::Cursed, cursed_price(buy), cursed_price(sell)),
                ],
            )
        }
    }
}

/// The price table of scrolls, from records `name,buy`; none when a record
/// lacks a field, its price is no number, or its doubled price does not fit.
pub fn scrolls(csv: &'static str) -> (r: Option<Vec<Scroll>>)
    ensures
        match r {
            Some(list) => collect_rows(records_of(csv@), |f| scroll_row(f)) == Some(
                list@.map_values(|b: Scroll| b@),
            ),
            None => collect_rows(records_of(csv@), |f| scroll_row(f)) is None,
        },
{
    let recs = read_records(csv);
    let ghost rows = fields_view(recs@);
    let ghost row = |f| scroll_row(f);
    let mut list: Vec<Scroll> = Vec::new();
    let mut i: usize = 0;
    proof {
        assert(rows.take(0) =~= Seq::<Seq<Seq<char>>>::empty());
        assert(list@.map_values(|b: Scroll| b@) =~= Seq::empty());
    }
    while i < recs.len()
        invariant
            i <= recs@.len(),
            rows == fields_view(recs@),
            rows == records_of(csv@),
            row == (|f| scroll_row(f)),
            collect_rows(rows.take(i as int), row) == Some(list@.map_values(|b: Scroll| b@)),
        decreases recs@.len() - i,
    {
        let f = &recs[i];
        proof {
            assert(rows.take(i + 1).drop_last() =~= rows.take(i as int));
            assert(rows[i as int] == f@.map_values(|x: &'static str| x@));
        }
        if f.len() < 2 {
            proof {
                lemma_collect_rows_none(rows, row, i + 1);
            }
            return None;
        }
        let buy = match parse_u16(f[1]) {
            Ok(b) => b,
            Err(_) => {
                proof {
                    lemma_collect_rows_none(rows, row, i + 1);
                }
                return None;
            },
        };
        if buy > u16::MAX / 2 {
            proof {
                lemma_collect_rows_none(rows, row, i + 1);
            }
            return None;
        }
        let sell = sell_price(buy);
        let ghost before = list@.map_values(|b: Scroll| b@);
        list.push(Scroll { name: f[0], state: ItemState::Normal, buy, sell });
        list.push(Scroll { name: f[0], state: ItemState::Blessed, buy: buy * 2, sell: sell * 2 });
        list.push(Scroll { name: f[0], state: ItemState::Cursed, buy: cursed(buy), sell: cursed(sell) });
        proof {
            assert(list@.map_values(|b: Scroll| b@) =~= before + scroll_row(rows[i as int])->0);
        }
        i += 1;
    }
    proof {
        assert(rows.take(i as int) =~= rows);
    }
    Some(list)
}

/// The entries of the first `k` levels of an item bought for `buy` at level
/// 0, each level adding 100 to the price: plain, then cursed.
pub open spec fn level_entries(name: Seq<char>, buy: u16, k: nat) -> Seq<
    (Seq<char>, ItemState, u16, u16, u16),
>
    decreases k,
{
    if k == 0 {
        Seq::empty()
    } else {
        let level = (k - 1) as nat;
        let b = (buy + 100 * level) as u16;
        level_entries(name, buy, level) + seq![
            (name, ItemState::Normal, b, sell_of(b), level as u16),
            (name, ItemState::Cursed, cursed_price(b), cursed_price(sell_of(b)), level as u16),
        ]
    }
}

/// The entries of a record `name,buy,min,max` of a staff or a pot: one pair
/// for each level from 0 to `max`; none when the price at `max` does not fit.
pub open spec fn level_row(f: Seq<Seq<char>>) -> Option<Seq<(Seq<char>, ItemState, u16, u16, u16)>> {
    if f.len() < 4 || decimal_u16(f[1]) is None || decimal_u16(f[3]) is None {
        None
    } else {
        let buy = decimal_u16(f[1])->0;
        let max = decimal_u16(f[3])->0;
        if buy + 100 * max > u16::MAX {
            None
        } else {
            Some(level_entries(f[0], buy, (max + 1) as nat))
        }
    }
}

/// The base price and the highest level of a record `name,buy,min,max`.
fn level_bounds(f: &Vec<&'static str>) -> (r: Option<(u16, u16)>)
    ensures
        match r {
            Some((buy, max)) => {
                &&& f@.len() >= 4
                &&& decimal_u16(f@[1]@) == Some(buy)
                &&& decimal_u16(f@[3]@) == Some(max)
                &&& buy + 100 * max <= u16::MAX
            },
            None => level_row(f@.map_values(|x: &'static str| x@)) is None,
        },
{
    if f.len() < 4 {
        return None;
    }
    match (parse_u16(f[1]), parse_u16(f[3])) {
        (Ok(buy), Ok(max)) => {
            if max > 655 || buy as u32 + 100 * max as u32 > u16::MAX as u32 {
                None
            } else {
                Some((buy, max))
            }
        },
        _ => None,
    }
}

/// The price table of staves, from records `name,buy,min,max`: each staff
/// with 0 to `max` uses left; none when a record lacks a field, a number is
/// none, or a price does not fit.
pub fn staves(csv: &'static str) -> (r: Option<Vec<Staff>>)
    ensures
        match r {
            Some(list) => collect_rows(records_of(csv@), |f| level_row(f)) == Some(
                list@.map_values(|b: Staff| b@),
            ),
            None => collect_rows(records_of(csv@), |f| level_row(f)) is None,
        },
{
    let recs = read_records(csv);
    let ghost rows = fields_view(recs@);
    let ghost row = |f| level_row(f);
    let mut list: Vec<Staff> = Vec::new();
    let mut i: usize = 0;
    proof {
        assert(rows.take(0) =~= Seq::<Seq<Seq<char>>>::empty());
        assert(list@.map_values(|b: Staff| b@) =~= Seq::empty());
    }
    while i < recs.len()
        invariant
            i <= recs@.len(),
            rows == fields_view(recs@),
            rows == records_of(csv@),
            row == (|f| level_row(f)),
            collect_rows(rows.take(i as int), row) == Some(list@.map_values(|b: Staff| b@)),
        decreases recs@.len() - i,
    {
        let f = &recs[i];
        proof {
            assert(rows.take(i + 1).drop_last() =~= rows.take(i as int));
            assert(rows[i as int] == f@.map_values(|x: &'static str| x@));
        }
        let (buy, max) = match level_bounds(f) {
            Some(b) => b,
            None => {
                proof {
                    lemma_collect_rows_none(rows, row, i + 1);
                }
                return None;
            },
        };
        let ghost before = list@.map_values(|b: Staff| b@);
        let ghost name = f@[0]@;
        let mut count: u16 = 0;
        proof {
            assert(level_entries(name, buy, 0) =~= Seq::empty());
            assert(list@.map_values(|b: Staff| b@) =~= before + level_entries(name, buy, 0));
        }
        while count <= max
            invariant
                count <= max + 1,
                buy + 100 * max <= u16::MAX,
                name == f@[0]@,
                f@.len() >= 4,
                list@.map_values(|b: Staff| b@) == before + level_entries(name, buy, count as nat),
            decreases max + 1 - count,
        {
            let b = buy + 100 * count;
            let sell = sell_price(b);
            let ghost prev = list@.map_values(|b: Staff| b@);
            list.push(Staff { name: f[0], state: ItemState::Normal, buy: b, sell, count });
            list.push(Staff { name: f[0], state: ItemState::Cursed, buy: cursed(b), sell: cursed(sell), count });
            proof {
                assert(level_entries(name, buy, (count + 1) as nat) == level_entries(
                    name,
                    buy,
                    count as nat,
                ) + seq![
                    (name, ItemState::Normal, b, sell, count),
                    (name, ItemState::Cursed, cursed_price(b), cursed_price(sell), count),
                ]);
                assert(list@.map_values(|b: Staff| b@) =~= prev.push(
                    (name, ItemState::Normal, b, sell, count),
                ).push((name, ItemState::Cursed, cursed_price(b), cursed_price(sell), count)));
                assert(list@.map_values(|b: Staff| b@) =~= before + level_entries(
                    name,
                    buy,
                    (count + 1) as nat,
                ));
            }
            count = count + 1;
        }
        proof {
            assert(rows[i as int][0] == name);
            assert(rows[i as int][1] == f@[1]@);
            assert(rows[i as int][3] == f@[3]@);
            assert(count == max + 1);
            assert(list@.map_values(|b: Staff| b@) =~= before + level_row(rows[i as int])->0);
        }
        i += 1;
    }
    proof {
        assert(rows.take(i as int) =~= rows);
    }
    Some(list)
}

/// The price table of pots, from records `name,buy,min,max`: each pot of
/// capacity 0 to `max`; none when a record lacks a field, a number is
/// none, or a price does not fit.
pub fn pots(csv: &'static str) -> (r: Option<Vec<Pot>>)
    ensures
        match r {
            Some(list) => collect_rows(records_of(csv@), |f| level_row(f)) == Some(
                list@.map_values(|b: Pot| b@),
            ),
            None => collect_rows(records_of(csv@), |f| level_row(f)) is None,
        },
{
    let recs = read_records(csv);
    let ghost rows = fields_view(recs@);
    let ghost row = |f| level_row(f);
    let mut list: Vec<Pot> = Vec::new();
    let mut i: usize = 0;
    proof {
        assert(rows.take(0) =~= Seq::<Seq<Seq<char>>>::empty());
        assert(list@.map_values(|b: Pot| b@) =~= Seq::empty());
    }
    while i < recs.len()
        invariant
            i <= recs@.len(),
            rows == fields_view(recs@),
            rows == records_of(csv@),
            row == (|f| level_row(f)),
            collect_rows(rows.take(i as int), row) == Some(list@.map_values(|b: Pot| b@)),
        decreases recs@.len() - i,
    {
        let f = &recs[i];
        proof {
            assert(rows.take(i + 1).drop_last() =~= rows.take(i as int));
            assert(rows[i as int] == f@.map_values(|x: &'static str| x@));
        }
        let (buy, max) = match level_bounds(f) {
            Some(b) => b,
            None => {
                proof {
                    lemma_collect_rows_none(rows, row, i + 1);
                }
                return None;
            },
        };
        let ghost before = list@.map_values(|b: Pot| b@);
        let ghost name = f@[0]@;
        let mut count: u16 = 0;
        proof {
            assert(level_entries(name, buy, 0) =~= Seq::empty());
            assert(list@.map_values(|b: Pot| b@) =~= before + level_entries(name, buy, 0));
        }
        while count <= max
            invariant
                count <= max + 1,
                buy + 100 * max <= u16::MAX,
                name == f@[0]@,
                f@.len() >= 4,
                list@.map_values(|b: Pot| b@) == before + level_entries(name, buy, count as nat),
            decreases max + 1 - count,
        {
            let b = buy + 100 * count;
            let sell = sell_price(b);
            let ghost prev = list@.map_values(|b: Pot| b@);
            list.push(Pot { name: f[0], state: ItemState::Normal, buy: b, sell, size: count });
            list.push(Pot { name: f[0], state: ItemState::Cursed, buy: cursed(b), sell: cursed(sell), size: count });
            proof {
                assert(level_entries(name, buy, (count + 1) as nat) == level_entries(
                    name,
                    buy,
                    count as nat,
                ) + seq![
                    (name, ItemState::Normal, b, sell, count),
                    (name, ItemState::Cursed, cursed_price(b), cursed_price(sell), count),
                ]);
                assert(list@.map_values(|b: Pot| b@) =~= prev.push(
                    (name, ItemState::Normal, b, sell, count),
                ).push((name, ItemState::Cursed, cursed_price(b), cursed_price(sell), count)));
                assert(list@.map_values(|b: Pot| b@) =~= before + level_entries(
                    name,
                    buy,
                    (count + 1) as nat,
                ));
            }
            count = count + 1;
        }
        proof {
            assert(rows[i as int][0] == name);
            assert(rows[i as int][1] == f@[1]@);
            assert(rows[i as int][3] == f@[3]@);
            assert(count == max + 1);
            assert(list@.map_values(|b: Pot| b@) =~= before + level_row(rows[i as int])->0);
        }
        i += 1;
    }
    proof {
        assert(rows.take(i as int) =~= rows);
    }
    Some(list)
}

/// The bracelets of `list` whose buying price is `price` first, then the
/// others, each group in its order in `list`.
pub fn bought_first_bracelets(list: &Vec<Bracelet>, price: u16) -> (r: Vec<Bracelet>)
    ensures
        r@ == list@.filter(|b: Bracelet| b.buy == price) + list@.filter(|b: Bracelet| b.buy != price),
{
    let ghost hit = |b: Bracelet| b.buy == price;
    let ghost miss = |b: Bracelet| b.buy != price;
    let mut first: Vec<Bracelet> = Vec::new();
    let mut rest: Vec<Bracelet> = Vec::new();
    let mut i: usize = 0;
    while i < list.len()
        invariant
            i <= list@.len(),
            hit == (|b: Bracelet| b.buy == price),
            miss == (|b: Bracelet| b.buy != price),
            first@ == list@.take(i as int).filter(hit),
            rest@ == list@.take(i as int).filter(miss),
        decreases list@.len() - i,
    {
        let item = list[i];
        proof {
            reveal(Seq::filter);
            assert(list@.take(i + 1).drop_last() =~= list@.take(i as int));
        }
        if item.buy == price {
            first.push(item);
        } else {
            rest.push(item);
        }
        i += 1;
    }
    proof {
        assert(list@.take(i as int) =~= list@);
    }
    let ghost front = first@;
    first.append(&mut rest);
    proof {
        assert(first@ =~= front + list@.filter(miss));
    }
    first
}

/// The herbs of `list` whose buying price is `price` first, then the
/// others, each group in its order in `list`.
pub fn bought_first_grasses(list: &Vec<Grass>, price: u16) -> (r: Vec<Grass>)
    ensures
        r@ == list@.filter(|b: Grass| b.buy == price) + list@.filter(|b: Grass| b.buy != price),
{
    let ghost hit = |b: Grass| b.buy == price;
    let ghost miss = |b: Grass| b.buy != price;
    let mut first: Vec<Grass> = Vec::new();
    let mut rest: Vec<Grass> = Vec::new();
    let mut i: usize = 0;
    while i < list.len()
        invariant
            i <= list@.len(),
            hit == (|b: Grass| b.buy == price),
            miss == (|b: Grass| b.buy != price),
            first@ == list@.take(i as int).filter(hit),
            rest@ == list@.take(i as int).filter(miss),
        decreases list@.len() - i,
    {
        let item = list[i];
        proof {
            reveal(Seq::filter);
            assert(list@.take(i + 1).drop_last() =~= list@.take(i as int));
        }
        if item.buy == price {
            first.push(item);
        } else {
            rest.push(item);
        }
        i += 1;
    }
    proof {
        assert(list@.take(i as int) =~= list@);
    }
    let ghost front = first@;
    first.append(&mut rest);
    proof {
        assert(first@ =~= front + list@.filter(miss));
    }
    first
}

/// The scrolls of `list` whose buying price is `price` first, then the
/// others, each group in its order in `list`.
pub fn bought_first_scrolls(list: &Vec<Scroll>, price: u16) -> (r: Vec<Scroll>)
    ensures
        r@ == list@.filter(|b: Scroll| b.buy == price) + list@.filter(|b: Scroll| b.buy != price),
{
    let ghost hit = |b: Scroll| b.buy == price;
    let ghost miss = |b: Scroll| b.buy != price;
    let mut first: Vec<Scroll> = Vec::new();
    let mut rest: Vec<Scroll> = Vec::new();
    let mut i: usize = 0;
    while i < list.len()
        invariant
            i <= list@.len(),
            hit == (|b: Scroll| b.buy == price),
            miss == (|b: Scroll| b.buy != price),
            first@ == list@.take(i as int).filter(hit),
            rest@ == list@.take(i as int).filter(miss),
        decreases list@.len() - i,
    {
        let item = list[i];
        proof {
            reveal(Seq::filter);
            assert(list@.take(i + 1).drop_last() =~= list@.take(i as int));
        }
        if item.buy == price {
            first.push(item);
        } else {
            rest.push(item);
        }
        i += 1;
    }
    proof {
        assert(list@.take(i as int) =~= list@);
    }
    let ghost front = first@;
    first.append(&mut rest);
    proof {
        assert(first@ =~= front + list@.filter(miss));
    }
    first
}

/// The staves of `list` whose buying price is `price` first, then the
/// others, each group in its order in `list`.
pub fn bought_first_staves(list: &Vec<Staff>, price: u16) -> (r: Vec<Staff>)
    ensures
        r@ == list@.filter(|b: Staff| b.buy == price) + list@.filter(|b: Staff| b.buy != price),
{
    let ghost hit = |b: Staff| b.buy == price;
    let ghost miss = |b: Staff| b.buy != price;
    let mut first: Vec<Staff> = Vec::new();
    let mut rest: Vec<Staff> = Vec::new();
    let mut i: usize = 0;
    while i < list.len()
        invariant
            i <= list@.len(),
            hit == (|b: Staff| b.buy == price),
            miss == (|b: Staff| b.buy != price),
            first@ == list@.take(i as int).filter(hit),
            rest@ == list@.take(i as int).filter(miss),
        decreases list@.len() - i,
    {
        let item = list[i];
        proof {
            reveal(Seq::filter);
            assert(list@.take(i + 1).drop_last() =~= list@.take(i as int));
        }
        if item.buy == price {
            first.push(item);
        } else {
            rest.push(item);
        }
        i += 1;
    }
    proof {
        assert(list@.take(i as int) =~= list@);
    }
    let ghost front = first@;
    first.append(&mut rest);
    proof {
        assert(first@ =~= front + list@.filter(miss));
    }
    first
}

/// The pots of `list` whose buying price is `price` first, then the
/// others, each group in its order in `list`.
pub fn bought_first_pots(list: &Vec<Pot>, price: u16) -> (r: Vec<Pot>)
    ensures
        r@ == list@.filter(|b: Pot| b.buy == price) + list@.filter(|b: Pot| b.buy != price),
{
    let ghost hit = |b: Pot| b.buy == price;
    let ghost miss = |b: Pot| b.buy != price;
    let mut first: Vec<Pot> = Vec::new();
    let mut rest: Vec<Pot> = Vec::new();
    let mut i: usize = 0;
    while i < list.len()
        invariant
            i <= list@.len(),
            hit == (|b: Pot| b.buy == price),
            miss == (|b: Pot| b.buy != price),
            first@ == list@.take(i as int).filter(hit),
            rest@ == list@.take(i as int).filter(miss),
        decreases list@.len() - i,
    {
        let item = list[i];
        proof {
            reveal(Seq::filter);
            assert(list@.take(i + 1).drop_last() =~= list@.take(i as int));
        }
        if item.buy == price {
            first.push(item);
        } else {
            rest.push(item);
        }
        i += 1;
    }
    proof {
        assert(list@.take(i as int) =~= list@);
    }
    let ghost front = first@;
    first.append(&mut rest);
    proof {
        assert(first@ =~= front + list@.filter(miss));
    }
    first
}

} // verus!

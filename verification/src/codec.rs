//! Bit-exact text codec for one card's history row: fixed leading fields,
//! then one comma-separated field per ledger timestamp holding an optional
//! bracketed quantity and the `;`-separated price pair. Decoding is the
//! structural inverse of encoding, proved below.

use vstd::prelude::*;

use crate::card::{rarity_of_text, rarity_text, Rarity};
use crate::history::{hist_wf, obs_wf, CardHistory, CardHistoryV, ObsV, PriceHistoryTracker};
use crate::text::{
    all_digits, chars_to_string, check_price_range, dec_of, dec_value, find_char, find_from,
    lemma_canon_dec_round, lemma_dec_of_canon, lemma_find_from_is, lemma_find_from_spec,
    parse_u32_range, price_ok, push_dec_u32, str_to_chars,
};

verus! {

/// The text of a boolean row field.
pub open spec fn bool_text(b: bool) -> Seq<char> {
    if b {
        seq!['t', 'r', 'u', 'e']
    } else {
        seq!['f', 'a', 'l', 's', 'e']
    }
}

/// The text of one observation: optional bracketed quantity, primary price
/// or `-`, a `;`, then secondary price or `-`.
pub open spec fn obs_text(o: ObsV) -> Seq<char> {
    let qpart = match o.quantity {
        Some(q) => seq!['['] + dec_of(q as nat) + seq![']'],
        None => Seq::<char>::empty(),
    };
    let gbpart = match o.goatbots_price {
        Some(p) => p,
        None => seq!['-'],
    };
    let scpart = match o.scryfall_price {
        Some(p) => p,
        None => seq!['-'],
    };
    qpart + gbpart + seq![';'] + scpart
}

/// The text of a whole observation sequence: a leading comma before each
/// observation.
pub open spec fn obs_part(obs: Seq<ObsV>) -> Seq<char>
    decreases obs.len(),
{
    if obs.len() == 0 {
        Seq::empty()
    } else {
        seq![','] + obs_text(obs.first()) + obs_part(obs.drop_first())
    }
}

/// The full row encoding of one card history.
pub open spec fn encode_row(h: CardHistoryV) -> Seq<char> {
    dec_of(h.id as nat) + seq![','] + h.quantity + seq![','] + seq!['"'] + h.name + seq!['"']
        + seq![','] + h.set + seq![','] + rarity_text(h.rarity) + seq![','] + bool_text(h.foil)
        + obs_part(h.price_history)
}

/// Whether position `i` ends the quoted name: a quote followed by a comma
/// or the end of the row.
pub open spec fn quote_end_at(s: Seq<char>, i: int) -> bool {
    &&& 0 <= i < s.len()
    &&& s[i] == '"'
    &&& (i + 1 == s.len() || s[i + 1] == ',')
}

/// The first position at or after `from` that ends the quoted name, or the
/// length when there is none.
pub open spec fn find_quote_end(s: Seq<char>, from: int) -> int
    decreases s.len() - from,
    when from >= 0
{
    if from >= s.len() {
        s.len() as int
    } else if quote_end_at(s, from) {
        from
    } else {
        find_quote_end(s, from + 1)
    }
}

/// `find_quote_end` always lands between `from` and the length.
pub proof fn lemma_find_quote_end_nonneg(s: Seq<char>, from: int)
    requires
        from >= 0,
    ensures
        0 <= find_quote_end(s, from) <= s.len(),
    decreases s.len() - from,
{
    if from < s.len() && !quote_end_at(s, from) {
        lemma_find_quote_end_nonneg(s, from + 1);
    }
}

pub proof fn lemma_find_quote_end_spec(s: Seq<char>, from: int)
    requires
        0 <= from <= s.len(),
    ensures
        from <= find_quote_end(s, from) <= s.len(),
        find_quote_end(s, from) < s.len() ==> quote_end_at(s, find_quote_end(s, from)),
        forall|k: int| from <= k < find_quote_end(s, from) ==> !quote_end_at(s, k),
    decreases s.len() - from,
{
    if from < s.len() && !quote_end_at(s, from) {
        lemma_find_quote_end_spec(s, from + 1);
    }
}

pub proof fn lemma_find_quote_end_is(s: Seq<char>, from: int, k: int)
    requires
        0 <= from <= k <= s.len(),
        forall|i: int| from <= i < k ==> !quote_end_at(s, i),
        k == s.len() || quote_end_at(s, k),
    ensures
        find_quote_end(s, from) == k,
    decreases k - from,
{
    if from < k {
        lemma_find_quote_end_is(s, from + 1, k);
    }
}

/// A decimal token accepted by the row decoder: non-empty digits denoting
/// a value within `u32` range.
pub open spec fn parse_ok(tok: Seq<char>) -> bool {
    &&& tok.len() > 0
    &&& all_digits(tok)
    &&& dec_value(tok) <= u32::MAX
}

/// The price denoted by a row token: `-` is an absent price, valid price
/// text is itself, anything else is malformed.
pub open spec fn decode_price(tok: Seq<char>) -> Option<Option<Seq<char>>> {
    if tok == seq!['-'] {
        Some(None)
    } else if price_ok(tok) {
        Some(Some(tok))
    } else {
        None
    }
}

/// The observation denoted by one comma-separated row field.
pub open spec fn decode_obs(t: Seq<char>) -> Option<ObsV> {
    let semi = find_from(t, 0, ';');
    if semi == t.len() {
        None
    } else {
        let left = t.subrange(0, semi);
        let right = t.subrange(semi + 1, t.len() as int);
        match decode_price(right) {
            None => None,
            Some(sc) => {
                if left.len() > 0 && left[0] == '[' {
                    let rb = find_from(left, 0, ']');
                    if rb == left.len() {
                        None
                    } else {
                        let qtok = left.subrange(1, rb);
                        if !parse_ok(qtok) {
                            None
                        } else {
                            let gbtok = left.subrange(rb + 1, left.len() as int);
                            match decode_price(gbtok) {
                                None => None,
                                Some(gb) => Some(
                                    ObsV {
                                        quantity: Some(dec_value(qtok) as u32),
                                        goatbots_price: gb,
                                        scryfall_price: sc,
                                    },
                                ),
                            }
                        }
                    }
                } else {
                    match decode_price(left) {
                        None => None,
                        Some(gb) => Some(
                            ObsV { quantity: None, goatbots_price: gb, scryfall_price: sc },
                        ),
                    }
                }
            },
        }
    }
}

/// The observation sequence denoted by the row tail starting at `from`,
/// which must either be the row end or start with a comma.
pub open spec fn decode_obs_list(s: Seq<char>, from: int) -> Option<Seq<ObsV>>
    decreases s.len() - from,
    when from >= 0
    via decode_obs_list_decreases
{
    if from >= s.len() {
        Some(Seq::empty())
    } else if s[from] != ',' {
        None
    } else {
        let e = find_from(s, from + 1, ',');
        match decode_obs(s.subrange(from + 1, e)) {
            None => None,
            Some(o) => match decode_obs_list(s, e) {
                None => None,
                Some(rest) => Some(seq![o] + rest),
            },
        }
    }
}

#[via_fn]
proof fn decode_obs_list_decreases(s: Seq<char>, from: int) {
    if 0 <= from && from < s.len() && s[from] == ',' {
        lemma_find_from_spec(s, from + 1, ',');
    }
}

/// The card history denoted by a full row, or nothing when the row is
/// structurally malformed.
pub open spec fn decode_row(s: Seq<char>) -> Option<CardHistoryV> {
    let c0 = find_from(s, 0, ',');
    if c0 == s.len() || !parse_ok(s.subrange(0, c0)) {
        None
    } else {
        let id = dec_value(s.subrange(0, c0)) as u32;
        let c1 = find_from(s, c0 + 1, ',');
        if c1 == s.len() || !parse_ok(s.subrange(c0 + 1, c1)) {
            None
        } else {
            let quantity = dec_of(dec_value(s.subrange(c0 + 1, c1)));
            if c1 + 1 >= s.len() || s[c1 + 1] != '"' {
                None
            } else {
                let qe = find_quote_end(s, c1 + 2);
                if qe == s.len() || qe + 1 == s.len() || s[qe + 1] != ',' {
                    None
                } else {
                    let name = s.subrange(c1 + 2, qe);
                    let c3 = find_from(s, qe + 2, ',');
                    if c3 == s.len() {
                        None
                    } else {
                        let set = s.subrange(qe + 2, c3);
                        let c4 = find_from(s, c3 + 1, ',');
                        if c4 == s.len() {
                            None
                        } else {
                            let rarity = rarity_of_text(s.subrange(c3 + 1, c4));
                            let c5 = find_from(s, c4 + 1, ',');
                            let ftok = s.subrange(c4 + 1, c5);
                            if ftok != bool_text(true) && ftok != bool_text(false) {
                                None
                            } else {
                                let foil = ftok == bool_text(true);
                                match decode_obs_list(s, c5) {
                                    None => None,
                                    Some(obs) => Some(
                                        CardHistoryV {
                                            id,
                                            quantity,
                                            name,
                                            set,
                                            rarity,
                                            foil,
                                            price_history: obs,
                                        },
                                    ),
                                }
                            }
                        }
                    }
                }
            }
        }
    }
}

/// Appends the characters of `p` to `out`.
fn push_str_chars(p: &str, out: &mut Vec<char>)
    ensures
        final(out)@ == old(out)@ + p@,
{
    let v = str_to_chars(p);
    let mut k: usize = 0;
    while k < v.len()
        invariant
            k <= v@.len(),
            v@ == p@,
            out@ == old(out)@ + p@.subrange(0, k as int),
        decreases v@.len() - k,
    {
        out.push(v[k]);
        k = k + 1;
        proof {
            assert(out@ =~= old(out)@ + p@.subrange(0, k as int));
        }
    }
    proof {
        assert(out@ =~= old(out)@ + p@);
    }
}

/// Appends the characters of a string value to `out`.
pub(crate) fn push_label_chars(p: &String, out: &mut Vec<char>)
    ensures
        final(out)@ == old(out)@ + p@,
{
    push_str_chars(p.as_str(), out)
}

/// Appends a price field: the price text, or `-` when absent.
fn push_price(p: &Option<String>, out: &mut Vec<char>)
    ensures
        final(out)@ == old(out)@ + match p {
            Some(t) => t@,
            None => seq!['-'],
        },
{
    match p {
        Some(t) => push_str_chars(t.as_str(), out),
        None => {
            out.push('-');
            proof {
                assert(out@ =~= old(out)@ + seq!['-']);
            }
        },
    }
}

/// Appends the text of one observation, with its leading comma.
fn push_obs(tr: &PriceHistoryTracker, out: &mut Vec<char>)
    ensures
        final(out)@ == old(out)@ + seq![','] + obs_text(tr@),
{
    out.push(',');
    match tr.quantity {
        Some(q) => {
            out.push('[');
            push_dec_u32(q, out);
            out.push(']');
        },
        None => {},
    }
    push_price(&tr.goatbots_price, out);
    out.push(';');
    push_price(&tr.scryfall_price, out);
    proof {
        assert(out@ =~= old(out)@ + seq![','] + obs_text(tr@));
    }
}

impl CardHistory {
    /// Encodes this history as one text row.
    pub fn to_csv_row(&self) -> (r: String)
        ensures
            r@ == encode_row(self@),
    {
        let mut out: Vec<char> = Vec::new();
        push_dec_u32(self.id, &mut out);
        out.push(',');
        push_str_chars(self.quantity.as_str(), &mut out);
        out.push(',');
        out.push('"');
        push_str_chars(self.name.as_str(), &mut out);
        out.push('"');
        out.push(',');
        push_str_chars(self.set.as_str(), &mut out);
        out.push(',');
        self.rarity.push_text(&mut out);
        out.push(',');
        if self.foil {
            out.push('t');
            out.push('r');
            out.push('u');
            out.push('e');
        } else {
            out.push('f');
            out.push('a');
            out.push('l');
            out.push('s');
            out.push('e');
        }
        let ghost head = out@;
        proof {
            assert(head =~= dec_of(self@.id as nat) + seq![','] + self@.quantity + seq![',']
                + seq!['"'] + self@.name + seq!['"'] + seq![','] + self@.set + seq![',']
                + rarity_text(self@.rarity) + seq![','] + bool_text(self@.foil));
        }
        let mut k: usize = 0;
        let ghost obsv = self@.price_history;
        while k < self.price_history.len()
            invariant
                k <= self.price_history@.len(),
                obsv == self@.price_history,
                obsv.len() == self.price_history@.len(),
                forall|i: int|
                    0 <= i < self.price_history@.len() ==> obsv[i] == #[trigger] self.price_history@[i]@,
                out@ == head + obs_part_prefix(obsv, k as int),
            decreases self.price_history@.len() - k,
        {
            push_obs(&self.price_history[k], &mut out);
            k = k + 1;
            proof {
                lemma_obs_part_prefix_step(obsv, k as int - 1);
                assert(out@ =~= head + obs_part_prefix(obsv, k as int));
            }
        }
        proof {
            lemma_obs_part_prefix_full(obsv);
            assert(out@ =~= encode_row(self@));
        }
        chars_to_string(&out)
    }
}

/// The text of the first `k` observations of a sequence.
pub open spec fn obs_part_prefix(obs: Seq<ObsV>, k: int) -> Seq<char>
    decreases k,
    when k >= 0
{
    if k <= 0 {
        Seq::empty()
    } else {
        obs_part_prefix(obs, k - 1) + seq![','] + obs_text(obs[k - 1])
    }
}

/// Appending the next observation extends the prefix text by its field.
proof fn lemma_obs_part_prefix_step(obs: Seq<ObsV>, k: int)
    requires
        0 <= k < obs.len(),
    ensures
        obs_part_prefix(obs, k + 1) == obs_part_prefix(obs, k) + seq![','] + obs_text(obs[k]),
{
}

/// The full prefix text is the observation-part text.
proof fn lemma_obs_part_prefix_full(obs: Seq<ObsV>)
    ensures
        obs_part_prefix(obs, obs.len() as int) == obs_part(obs),
{
    lemma_obs_part_prefix_all(obs, obs.len() as int);
    assert(obs.subrange(0, obs.len() as int) =~= obs);
}

/// The prefix text of `k` observations equals the observation-part text of
/// the first `k` observations.
proof fn lemma_obs_part_prefix_all(obs: Seq<ObsV>, k: int)
    requires
        0 <= k <= obs.len(),
    ensures
        obs_part_prefix(obs, k) == obs_part(obs.subrange(0, k)),
    decreases k,
{
    if k > 0 {
        lemma_obs_part_prefix_all(obs, k - 1);
        let p = obs.subrange(0, k);
        assert(obs.subrange(0, k - 1) =~= p.drop_last());
        lemma_obs_part_snoc(p);
        assert(p.last() == obs[k - 1]);
    } else {
        assert(obs.subrange(0, 0) =~= Seq::<ObsV>::empty());
    }
}

/// The observation-part text of a non-empty sequence ends with its last
/// observation's field.
proof fn lemma_obs_part_snoc(obs: Seq<ObsV>)
    requires
        obs.len() > 0,
    ensures
        obs_part(obs) == obs_part(obs.drop_last()) + seq![','] + obs_text(obs.last()),
    decreases obs.len(),
{
    if obs.len() == 1 {
        assert(obs.drop_first() =~= Seq::<ObsV>::empty());
        assert(obs.drop_last() =~= Seq::<ObsV>::empty());
        assert(obs_part(obs) =~= seq![','] + obs_text(obs.first()));
        assert(obs_part(obs.drop_last()) + seq![','] + obs_text(obs.last()) =~= seq![',']
            + obs_text(obs[0]));
    } else {
        let t = obs.drop_first();
        lemma_obs_part_snoc(t);
        assert(t.drop_last() =~= obs.drop_last().drop_first());
        assert(t.last() == obs.last());
        assert(obs.drop_last().first() == obs.first());
        assert(obs_part(obs) == seq![','] + obs_text(obs.first()) + obs_part(t));
        assert(obs_part(obs.drop_last()) == seq![','] + obs_text(obs.first()) + obs_part(
            obs.drop_last().drop_first(),
        ));
        assert(obs_part(obs) =~= obs_part(obs.drop_last()) + seq![','] + obs_text(obs.last()));
    }
}

/// A structurally malformed row: a missing field, an unterminated quoted
/// name, or a malformed number or price token.
#[derive(Clone, Copy, Debug, PartialEq, Eq, Structural)]
pub struct RowDecodeError;

/// Builds a `String` from `s[from..to]`.
pub(crate) fn string_from_range(s: &Vec<char>, from: usize, to: usize) -> (r: String)
    requires
        from <= to <= s@.len(),
    ensures
        r@ == s@.subrange(from as int, to as int),
{
    let mut out: Vec<char> = Vec::new();
    let mut k: usize = from;
    while k < to
        invariant
            from <= k <= to <= s@.len(),
            out@ == s@.subrange(from as int, k as int),
        decreases to - k,
    {
        out.push(s[k]);
        k = k + 1;
        proof {
            assert(out@ =~= s@.subrange(from as int, k as int));
        }
    }
    chars_to_string(&out)
}

/// Finds the first occurrence of `c` within `s[from..to]`, expressed as a
/// position of `s`; returns `to` when there is none.
fn find_in_range(s: &Vec<char>, from: usize, to: usize, c: char) -> (r: usize)
    requires
        from <= to <= s@.len(),
    ensures
        from <= r <= to,
        r - from == find_from(s@.subrange(from as int, to as int), 0, c),
{
    let ghost t = s@.subrange(from as int, to as int);
    let mut i: usize = from;
    while i < to && s[i] != c
        invariant
            from <= i <= to <= s@.len(),
            t == s@.subrange(from as int, to as int),
            forall|k: int| from <= k < i ==> s@[k] != c,
        decreases to - i,
    {
        i = i + 1;
    }
    proof {
        assert(forall|k: int| 0 <= k < i - from ==> t[k] == s@[from + k]);
        assert(forall|k: int| 0 <= k < i - from ==> t[k] != c);
        if i < to {
            assert(t[i - from] == s@[i as int]);
        }
        lemma_find_from_is(t, 0, i - from, c);
    }
    i
}

/// Decodes a price token within `s[from..to]`: `-` is an absent price.
fn price_from_range(s: &Vec<char>, from: usize, to: usize) -> (r: Option<Option<String>>)
    requires
        from <= to <= s@.len(),
    ensures
        match r {
            Some(Some(p)) => decode_price(s@.subrange(from as int, to as int)) == Some(
                Some(p@),
            ),
            Some(None) => decode_price(s@.subrange(from as int, to as int)) == Some(
                None::<Seq<char>>,
            ),
            None => decode_price(s@.subrange(from as int, to as int)) is None,
        },
{
    let ghost tok = s@.subrange(from as int, to as int);
    if to - from == 1 && s[from] == '-' {
        proof {
            assert(tok =~= seq!['-']);
        }
        return Some(None);
    }
    proof {
        if tok.len() == 1 {
            assert(tok[0] == s@[from as int]);
            assert(tok != seq!['-']);
        } else {
            assert(tok.len() != seq!['-'].len());
        }
    }
    if check_price_range(s, from, to) {
        Some(Some(string_from_range(s, from, to)))
    } else {
        None
    }
}

/// Decodes one comma-separated observation field, `s[from..to]`.
fn parse_obs_range(s: &Vec<char>, from: usize, to: usize) -> (r: Option<PriceHistoryTracker>)
    requires
        from <= to <= s@.len(),
    ensures
        match r {
            Some(tr) => decode_obs(s@.subrange(from as int, to as int)) == Some(tr@),
            None => decode_obs(s@.subrange(from as int, to as int)) is None,
        },
{
    let ghost t = s@.subrange(from as int, to as int);
    let semi = find_in_range(s, from, to, ';');
    proof {
        lemma_find_from_spec(t, 0, ';');
    }
    if semi == to {
        return None;
    }
    let ghost left = t.subrange(0, semi - from);
    let ghost right = t.subrange(semi - from + 1, t.len() as int);
    proof {
        assert(left =~= s@.subrange(from as int, semi as int));
        assert(right =~= s@.subrange(semi + 1, to as int));
    }
    let sc = match price_from_range(s, semi + 1, to) {
        Some(p) => p,
        None => {
            return None;
        },
    };
    if semi > from && s[from] == '[' {
        proof {
            assert(left[0] == s@[from as int]);
        }
        let rb = find_in_range(s, from, semi, ']');
        proof {
            assert(left == s@.subrange(from as int, semi as int));
            lemma_find_from_spec(left, 0, ']');
        }
        if rb == semi {
            return None;
        }
        let ghost qtok = left.subrange(1, rb - from);
        proof {
            assert(qtok =~= s@.subrange(from + 1, rb as int));
        }
        let q = match parse_u32_range(s, from + 1, rb) {
            Some(v) => v,
            None => {
                return None;
            },
        };
        let ghost gbtok = left.subrange(rb - from + 1, left.len() as int);
        proof {
            assert(gbtok =~= s@.subrange(rb + 1, semi as int));
        }
        let gb = match price_from_range(s, rb + 1, semi) {
            Some(p) => p,
            None => {
                return None;
            },
        };
        Some(PriceHistoryTracker { quantity: Some(q), goatbots_price: gb, scryfall_price: sc })
    } else {
        proof {
            if left.len() > 0 {
                assert(left[0] == s@[from as int]);
            }
        }
        let gb = match price_from_range(s, from, semi) {
            Some(p) => p,
            None => {
                return None;
            },
        };
        Some(PriceHistoryTracker { quantity: None, goatbots_price: gb, scryfall_price: sc })
    }
}

/// Decodes the identifier column: the digits before the first comma.
/// Returns the value and the comma's position.
pub fn col0_id(s: &Vec<char>, from: usize) -> (r: Option<(u32, usize)>)
    requires
        from <= s@.len(),
    ensures
        match r {
            Some((v, e)) => {
                &&& e == find_from(s@, from as int, ',')
                &&& e < s@.len()
                &&& parse_ok(s@.subrange(from as int, e as int))
                &&& v == dec_value(s@.subrange(from as int, e as int))
            },
            None => find_from(s@, from as int, ',') == s@.len() || !parse_ok(
                s@.subrange(from as int, find_from(s@, from as int, ',')),
            ),
        },
{
    let e = find_char(s, from, ',');
    if e == s.len() {
        return None;
    }
    match parse_u32_range(s, from, e) {
        Some(v) => Some((v, e)),
        None => None,
    }
}

/// Decodes the quantity column, which has the same shape as the
/// identifier column.
pub fn col1_quantity(s: &Vec<char>, from: usize) -> (r: Option<(u32, usize)>)
    requires
        from <= s@.len(),
    ensures
        match r {
            Some((v, e)) => {
                &&& e == find_from(s@, from as int, ',')
                &&& e < s@.len()
                &&& parse_ok(s@.subrange(from as int, e as int))
                &&& v == dec_value(s@.subrange(from as int, e as int))
            },
            None => find_from(s@, from as int, ',') == s@.len() || !parse_ok(
                s@.subrange(from as int, find_from(s@, from as int, ',')),
            ),
        },
{
    col0_id(s, from)
}

/// Decodes the quoted name column starting at the opening quote's
/// position: seeks the first quote followed by a comma or the row end, and
/// returns the name between the quotes with the closing quote's position.
pub fn col2_name(s: &Vec<char>, from: usize) -> (r: Option<(String, usize)>)
    requires
        from < s@.len(),
        s@[from as int] == '"',
    ensures
        match r {
            Some((name, qe)) => {
                &&& qe == find_quote_end(s@, from + 1)
                &&& qe < s@.len()
                &&& name@ == s@.subrange(from + 1, qe as int)
            },
            None => find_quote_end(s@, from + 1) == s@.len(),
        },
{
    let n = s.len();
    proof {
        assert(from < n);
    }
    let mut i: usize = from + 1;
    while i < s.len() && !(s[i] == '"' && (i + 1 == s.len() || s[i + 1] == ','))
        invariant
            from + 1 <= i <= s@.len(),
            forall|k: int| from + 1 <= k < i ==> !quote_end_at(s@, k),
        decreases s@.len() - i,
    {
        i = i + 1;
    }
    proof {
        if i < s@.len() {
            assert(quote_end_at(s@, i as int));
        }
        lemma_find_quote_end_is(s@, from + 1, i as int);
    }
    if i == s.len() {
        return None;
    }
    Some((string_from_range(s, from + 1, i), i))
}

/// Decodes the set-code column: the text before the next comma, which must
/// exist because more columns follow.
pub fn col3_set(s: &Vec<char>, from: usize) -> (r: Option<(String, usize)>)
    requires
        from <= s@.len(),
    ensures
        match r {
            Some((set, e)) => {
                &&& e == find_from(s@, from as int, ',')
                &&& e < s@.len()
                &&& set@ == s@.subrange(from as int, e as int)
            },
            None => find_from(s@, from as int, ',') == s@.len(),
        },
{
    let e = find_char(s, from, ',');
    if e == s.len() {
        return None;
    }
    Some((string_from_range(s, from, e), e))
}

/// Decodes the rarity column: any text maps to a rarity, unrecognized text
/// to the fallback variant.
pub fn col4_rarity(s: &Vec<char>, from: usize) -> (r: Option<(Rarity, usize)>)
    requires
        from <= s@.len(),
    ensures
        match r {
            Some((rar, e)) => {
                &&& e == find_from(s@, from as int, ',')
                &&& e < s@.len()
                &&& rar == rarity_of_text(s@.subrange(from as int, e as int))
            },
            None => find_from(s@, from as int, ',') == s@.len(),
        },
{
    let e = find_char(s, from, ',');
    if e == s.len() {
        return None;
    }
    Some((Rarity::from_chars_range(s, from, e), e))
}

/// Decodes the foil column: exactly `true` or `false`, ended by a comma or
/// the row end.
pub fn col5_foil(s: &Vec<char>, from: usize) -> (r: Option<(bool, usize)>)
    requires
        from <= s@.len(),
    ensures
        match r {
            Some((b, e)) => {
                &&& e == find_from(s@, from as int, ',')
                &&& from <= e <= s@.len()
                &&& s@.subrange(from as int, e as int) == bool_text(b)
            },
            None => {
                let e = find_from(s@, from as int, ',');
                s@.subrange(from as int, e as int) != bool_text(true) && s@.subrange(
                    from as int,
                    e as int,
                ) != bool_text(false)
            },
        },
{
    let e = find_char(s, from, ',');
    let mut tpat: Vec<char> = Vec::new();
    tpat.push('t');
    tpat.push('r');
    tpat.push('u');
    tpat.push('e');
    proof {
        assert(tpat@ =~= bool_text(true));
    }
    if crate::text::range_eq(s, from, e, &tpat) {
        return Some((true, e));
    }
    let mut fpat: Vec<char> = Vec::new();
    fpat.push('f');
    fpat.push('a');
    fpat.push('l');
    fpat.push('s');
    fpat.push('e');
    proof {
        assert(fpat@ =~= bool_text(false));
    }
    if crate::text::range_eq(s, from, e, &fpat) {
        return Some((false, e));
    }
    None
}

/// Decodes the per-timestamp observation columns from position `from` to
/// the row end.
pub fn col6_to_col_n(s: &Vec<char>, from: usize) -> (r: Option<Vec<PriceHistoryTracker>>)
    requires
        from <= s@.len(),
    ensures
        match r {
            Some(obs) => decode_obs_list(s@, from as int) == Some(
                obs@.map_values(|t: PriceHistoryTracker| t@),
            ),
            None => decode_obs_list(s@, from as int) is None,
        },
{
    let mut out: Vec<PriceHistoryTracker> = Vec::new();
    let mut pos: usize = from;
    proof {
        assert(out@.map_values(|t: PriceHistoryTracker| t@) =~= Seq::<ObsV>::empty());
    }
    while pos < s.len()
        invariant
            from <= pos <= s@.len(),
            decode_obs_list(s@, from as int) == (match decode_obs_list(s@, pos as int) {
                None => None::<Seq<ObsV>>,
                Some(tail) => Some(out@.map_values(|t: PriceHistoryTracker| t@) + tail),
            }),
        decreases s@.len() - pos,
    {
        let ghost built = out@.map_values(|t: PriceHistoryTracker| t@);
        if s[pos] != ',' {
            proof {
                assert(decode_obs_list(s@, pos as int) is None);
            }
            return None;
        }
        let e = find_char(s, pos + 1, ',');
        let tr = match parse_obs_range(s, pos + 1, e) {
            Some(tr) => tr,
            None => {
                proof {
                    assert(decode_obs_list(s@, pos as int) is None);
                }
                return None;
            },
        };
        out.push(tr);
        proof {
            assert(out@.map_values(|t: PriceHistoryTracker| t@) =~= built.push(tr@));
        }
        pos = e;
        proof {
            match decode_obs_list(s@, pos as int) {
                None => {},
                Some(tail) => {
                    assert(built.push(tr@) + tail =~= built + (seq![tr@] + tail));
                },
            }
        }
    }
    proof {
        assert(decode_obs_list(s@, pos as int) == Some(Seq::<ObsV>::empty()));
        assert(out@.map_values(|t: PriceHistoryTracker| t@) + Seq::<ObsV>::empty() =~= out@.map_values(
            |t: PriceHistoryTracker| t@,
        ));
    }
    Some(out)
}

impl CardHistory {
    /// Decodes one text row back into a card history.
    ///
    /// Succeeds exactly when the row is structurally well-formed per
    /// `decode_row`; a missing field, an unterminated quoted name or a
    /// malformed token is an error for the whole row.
    pub fn from_csv_row(row: String) -> (r: Result<CardHistory, RowDecodeError>)
        ensures
            match r {
                Ok(h) => decode_row(row@) == Some(h@),
                Err(_) => decode_row(row@) is None,
            },
    {
        let s = str_to_chars(row.as_str());
        let n = s.len();
        let (id, c0) = match col0_id(&s, 0) {
            Some(v) => v,
            None => {
                return Err(RowDecodeError);
            },
        };
        proof {
            assert(c0 < n);
        }
        let (qval, c1) = match col1_quantity(&s, c0 + 1) {
            Some(v) => v,
            None => {
                return Err(RowDecodeError);
            },
        };
        let mut qchars: Vec<char> = Vec::new();
        push_dec_u32(qval, &mut qchars);
        let quantity = chars_to_string(&qchars);
        proof {
            assert(c1 < n);
        }
        if c1 + 1 >= s.len() {
            return Err(RowDecodeError);
        }
        if s[c1 + 1] != '"' {
            return Err(RowDecodeError);
        }
        let (name, qe) = match col2_name(&s, c1 + 1) {
            Some(v) => v,
            None => {
                return Err(RowDecodeError);
            },
        };
        if qe + 1 == s.len() {
            return Err(RowDecodeError);
        }
        if s[qe + 1] != ',' {
            return Err(RowDecodeError);
        }
        let (set, c3) = match col3_set(&s, qe + 2) {
            Some(v) => v,
            None => {
                return Err(RowDecodeError);
            },
        };
        let (rarity, c4) = match col4_rarity(&s, c3 + 1) {
            Some(v) => v,
            None => {
                return Err(RowDecodeError);
            },
        };
        let (foil, c5) = match col5_foil(&s, c4 + 1) {
            Some(v) => v,
            None => {
                return Err(RowDecodeError);
            },
        };
        let price_history = match col6_to_col_n(&s, c5) {
            Some(v) => v,
            None => {
                return Err(RowDecodeError);
            },
        };
        let h = CardHistory { id, quantity, name, set, rarity, foil, price_history };
        proof {
            lemma_dec_of_canon(qval as nat);
            assert(decode_row(row@) == Some(h@));
        }
        Ok(h)
    }
}

/// No character of a well-formed observation field is a line break.
pub proof fn lemma_obs_text_no_newline(o: ObsV)
    requires
        obs_wf(o),
    ensures
        forall|i: int| 0 <= i < obs_text(o).len() ==> obs_text(o)[i] != '\n',
{
    lemma_obs_text_clean(o);
}

/// No character of an observation field is a comma or a line break, and
/// the field is never empty.
pub(crate) proof fn lemma_obs_text_clean(o: ObsV)
    requires
        obs_wf(o),
    ensures
        forall|i: int|
            0 <= i < obs_text(o).len() ==> obs_text(o)[i] != ',' && obs_text(o)[i] != '\n'
                && obs_text(o)[i] != '\r',
        obs_text(o).len() > 0,
{
    let t = obs_text(o);
    let qpart = match o.quantity {
        Some(q) => seq!['['] + dec_of(q as nat) + seq![']'],
        None => Seq::<char>::empty(),
    };
    let gbpart = match o.goatbots_price {
        Some(p) => p,
        None => seq!['-'],
    };
    let scpart = match o.scryfall_price {
        Some(p) => p,
        None => seq!['-'],
    };
    if o.quantity is Some {
        lemma_dec_of_canon(o.quantity->0 as nat);
    }
    assert forall|i: int|
        0 <= i < t.len() implies t[i] != ',' && t[i] != '\n' && t[i] != '\r' by {
        if i < qpart.len() {
            assert(t[i] == qpart[i]);
            if 0 < i < qpart.len() - 1 {
                assert(qpart[i] == dec_of(o.quantity->0 as nat)[i - 1]);
            }
        } else if i < qpart.len() + gbpart.len() {
            assert(t[i] == gbpart[i - qpart.len()]);
        } else if i == qpart.len() + gbpart.len() {
            assert(t[i] == ';');
        } else {
            assert(t[i] == scpart[i - (qpart.len() + gbpart.len() + 1)]);
        }
    }
}

/// No character of a rarity display text is a comma or a line break.
pub proof fn lemma_rarity_text_chars(r: Rarity)
    ensures
        forall|i: int|
            0 <= i < rarity_text(r).len() ==> rarity_text(r)[i] != ',' && rarity_text(r)[i]
                != '\n' && rarity_text(r)[i] != '\r' && rarity_text(r)[i] != '"',
{
    lemma_rarity_text_clean(r);
}

/// No character of a rarity display text is a comma or a line break.
proof fn lemma_rarity_text_clean(r: Rarity)
    ensures
        forall|i: int|
            0 <= i < rarity_text(r).len() ==> rarity_text(r)[i] != ',' && rarity_text(r)[i]
                != '\n' && rarity_text(r)[i] != '\r' && rarity_text(r)[i] != '"',
        rarity_text(r).len() > 0,
{
}

/// Decoding the price field written for a well-formed optional price gives
/// it back.
proof fn lemma_decode_price_of(p: Option<Seq<char>>)
    requires
        p is Some ==> price_ok(p->0),
    ensures
        decode_price(
            match p {
                Some(t) => t,
                None => seq!['-'],
            },
        ) == Some(p),
{
}

/// Decoding the field written for a well-formed observation gives it back.
proof fn lemma_decode_obs_text(o: ObsV)
    requires
        obs_wf(o),
    ensures
        decode_obs(obs_text(o)) == Some(o),
{
    let t = obs_text(o);
    let qpart = match o.quantity {
        Some(q) => seq!['['] + dec_of(q as nat) + seq![']'],
        None => Seq::<char>::empty(),
    };
    let gbpart = match o.goatbots_price {
        Some(p) => p,
        None => seq!['-'],
    };
    let scpart = match o.scryfall_price {
        Some(p) => p,
        None => seq!['-'],
    };
    let ll = qpart.len() + gbpart.len();
    if o.quantity is Some {
        lemma_dec_of_canon(o.quantity->0 as nat);
    }
    assert forall|i: int| 0 <= i < ll implies t[i] != ';' by {
        if i < qpart.len() {
            assert(t[i] == qpart[i]);
            if 0 < i < qpart.len() - 1 {
                assert(qpart[i] == dec_of(o.quantity->0 as nat)[i - 1]);
            }
        } else {
            assert(t[i] == gbpart[i - qpart.len()]);
        }
    }
    assert(t[ll as int] == ';');
    lemma_find_from_is(t, 0, ll as int, ';');
    let left = t.subrange(0, ll as int);
    let right = t.subrange(ll as int + 1, t.len() as int);
    assert(left =~= qpart + gbpart);
    assert(right =~= scpart);
    lemma_decode_price_of(o.scryfall_price);
    match o.quantity {
        Some(q) => {
            let dec = dec_of(q as nat);
            assert(left[0] == '[');
            assert(left.len() > 0);
            assert forall|i: int| 0 <= i < 1 + dec.len() implies left[i] != ']' by {
                if i > 0 {
                    assert(left[i] == dec[i - 1]);
                }
            }
            assert(left[1 + dec.len() as int] == ']');
            lemma_find_from_is(left, 0, 1 + dec.len() as int, ']');
            let qtok = left.subrange(1, 1 + dec.len() as int);
            assert(qtok =~= dec);
            assert(parse_ok(qtok));
            assert(dec_value(qtok) == q as nat);
            let gbtok = left.subrange(1 + dec.len() as int + 1, left.len() as int);
            assert(gbtok =~= gbpart);
            lemma_decode_price_of(o.goatbots_price);
            assert(decode_obs(t) == Some(o));
        },
        None => {
            assert(left =~= gbpart);
            match o.goatbots_price {
                Some(p) => {
                    assert(left[0] != '[');
                },
                None => {
                    assert(left[0] == '-');
                },
            }
            lemma_decode_price_of(o.goatbots_price);
            assert(decode_obs(t) == Some(o));
        },
    }
}

/// Decoding the tail written for a sequence of well-formed observations
/// gives the sequence back.
proof fn lemma_decode_obs_list_of(s: Seq<char>, from: int, obs: Seq<ObsV>)
    requires
        0 <= from <= s.len(),
        s.subrange(from, s.len() as int) == obs_part(obs),
        forall|k: int| 0 <= k < obs.len() ==> obs_wf(#[trigger] obs[k]),
    ensures
        decode_obs_list(s, from) == Some(obs),
    decreases obs.len(),
{
    if obs.len() == 0 {
        assert(s.len() - from == obs_part(obs).len());
        assert(from == s.len());
    } else {
        let o = obs.first();
        let rest = obs.drop_first();
        let ot = obs_text(o);
        lemma_obs_text_clean(o);
        assert(s.subrange(from, s.len() as int) == seq![','] + ot + obs_part(rest));
        assert(s[from] == ',') by {
            assert(s.subrange(from, s.len() as int)[0] == ',');
        }
        let e = from + 1 + ot.len();
        assert forall|i: int| from + 1 <= i < e implies s[i] != ',' by {
            assert(s.subrange(from, s.len() as int)[i - from] == ot[i - from - 1]);
        }
        assert(e <= s.len());
        if e < s.len() {
            assert(s[e] == ',') by {
                assert(s.subrange(from, s.len() as int)[e - from] == obs_part(rest)[0]);
                assert(obs_part(rest).len() > 0);
            }
        }
        lemma_find_from_is(s, from + 1, e, ',');
        assert(s.subrange(from + 1, e) =~= ot) by {
            assert(forall|i: int|
                0 <= i < ot.len() ==> #[trigger] s.subrange(from + 1, e)[i] == s.subrange(
                    from,
                    s.len() as int,
                )[i + 1]);
        }
        lemma_decode_obs_text(o);
        assert(decode_obs(s.subrange(from + 1, e)) == Some(o));
        assert(s.subrange(e, s.len() as int) =~= obs_part(rest)) by {
            assert(forall|i: int|
                0 <= i < s.len() - e ==> #[trigger] s.subrange(e, s.len() as int)[i]
                    == s.subrange(from, s.len() as int)[i + 1 + ot.len()]);
        }
        assert(forall|k: int| 0 <= k < rest.len() ==> obs_wf(#[trigger] rest[k]));
        lemma_decode_obs_list_of(s, e, rest);
        assert(seq![o] + rest =~= obs);
    }
}

/// Decoding the row written for a well-formed card history gives the
/// history back: the codec round-trips on every history whose name holds
/// no embedded double-quote character.
#[verifier::rlimit(100)]
pub proof fn lemma_row_round_trip(h: CardHistoryV)
    requires
        hist_wf(h),
    ensures
        decode_row(encode_row(h)) == Some(h),
{
    let s = encode_row(h);
    let idt = dec_of(h.id as nat);
    lemma_dec_of_canon(h.id as nat);
    lemma_rarity_text_clean(h.rarity);
    let c0 = idt.len() as int;
    let c1 = c0 + 1 + h.quantity.len();
    let qo = c1 + 1;
    let qe = qo + 1 + h.name.len();
    let c3 = qe + 2 + h.set.len();
    let c4 = c3 + 1 + rarity_text(h.rarity).len();
    let c5 = c4 + 1 + bool_text(h.foil).len();
    assert(s.len() == c5 + obs_part(h.price_history).len());
    assert forall|i: int| 0 <= i < c0 implies s[i] != ',' by {
        assert(s[i] == idt[i]);
    }
    assert(s[c0] == ',');
    lemma_find_from_is(s, 0, c0, ',');
    assert(s.subrange(0, c0) =~= idt);
    assert(parse_ok(s.subrange(0, c0)));
    assert(dec_value(s.subrange(0, c0)) == h.id as nat);
    assert forall|i: int| c0 + 1 <= i < c1 implies s[i] != ',' by {
        assert(s[i] == h.quantity[i - (c0 + 1)]);
    }
    assert(s[c1] == ',');
    lemma_find_from_is(s, c0 + 1, c1, ',');
    assert(s.subrange(c0 + 1, c1) =~= h.quantity);
    assert(parse_ok(h.quantity));
    lemma_canon_dec_round(h.quantity);
    assert(dec_of(dec_value(s.subrange(c0 + 1, c1))) == h.quantity);
    assert(s[qo] == '"');
    assert forall|i: int| qo + 1 <= i < qe implies !quote_end_at(s, i) by {
        assert(s[i] == h.name[i - (qo + 1)]);
    }
    assert(s[qe] == '"');
    assert(s[qe + 1] == ',');
    assert(quote_end_at(s, qe));
    lemma_find_quote_end_is(s, qo + 1, qe);
    assert(qe < s.len() && qe + 1 < s.len());
    assert(s.subrange(qo + 1, qe) =~= h.name);
    assert forall|i: int| qe + 2 <= i < c3 implies s[i] != ',' by {
        assert(s[i] == h.set[i - (qe + 2)]);
    }
    assert(s[c3] == ',');
    lemma_find_from_is(s, qe + 2, c3, ',');
    assert(s.subrange(qe + 2, c3) =~= h.set);
    assert forall|i: int| c3 + 1 <= i < c4 implies s[i] != ',' by {
        assert(s[i] == rarity_text(h.rarity)[i - (c3 + 1)]);
    }
    assert(s[c4] == ',');
    lemma_find_from_is(s, c3 + 1, c4, ',');
    assert(s.subrange(c3 + 1, c4) =~= rarity_text(h.rarity));
    crate::card::lemma_rarity_round_trip(h.rarity);
    assert forall|i: int| c4 + 1 <= i < c5 implies s[i] != ',' by {
        assert(s[i] == bool_text(h.foil)[i - (c4 + 1)]);
    }
    if c5 < s.len() {
        assert(s[c5] == ',') by {
            assert(h.price_history.len() > 0);
            assert(obs_part(h.price_history)[0] == ',');
            assert(s[c5] == obs_part(h.price_history)[0]);
        }
    }
    lemma_find_from_is(s, c4 + 1, c5, ',');
    assert(s.subrange(c4 + 1, c5) =~= bool_text(h.foil));
    assert(bool_text(true) != bool_text(false)) by {
        assert(bool_text(true).len() == 4 && bool_text(false).len() == 5);
    }
    assert(s.subrange(c5, s.len() as int) =~= obs_part(h.price_history));
    lemma_decode_obs_list_of(s, c5, h.price_history);
    assert(decode_row(s) == Some(h));
}

/// The row encoding is injective over well-formed histories: equal rows
/// decode to the one history that produced them.
pub proof fn lemma_encode_injective(h1: CardHistoryV, h2: CardHistoryV)
    requires
        hist_wf(h1),
        hist_wf(h2),
        encode_row(h1) == encode_row(h2),
    ensures
        h1 == h2,
{
    lemma_row_round_trip(h1);
    lemma_row_round_trip(h2);
}

} // verus!

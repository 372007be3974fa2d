//! Collection fusion: raw inventory entries become canonical per-card
//! records, enriched from an identifier-keyed metadata store (consuming
//! lookups), an identifier-keyed price store (non-consuming lookups) and
//! the secondary price catalog.

use vstd::prelude::*;

use crate::card::{GoatBotsCard, GoatBotsCardV, MtgoCard, MtgoCardV, Rarity, ScryfallCard, XmlCard};
use crate::history::{card_views, has_card_id, card_of, unique_card_ids};
use crate::text::{chars_to_string, check_price_range, dec_value, parse_u32_range, price_ok, str_to_chars};
use crate::EVENT_TICKET_ID;

verus! {

/// A fatal parse failure: a non-numeric identifier or quantity aborts the
/// whole conversion, never yielding a partial collection.
#[derive(Clone, Copy, Debug, PartialEq, Eq, Structural)]
pub struct ParseFailure;

/// True when the entry's identifier and quantity are decimal numbers in
/// `u32` range.
pub open spec fn entry_ok(cat_id: Seq<char>, quantity: Seq<char>) -> bool {
    &&& cat_id.len() > 0
    &&& crate::text::all_digits(cat_id)
    &&& dec_value(cat_id) <= u32::MAX
    &&& quantity.len() > 0
    &&& crate::text::all_digits(quantity)
    &&& dec_value(quantity) <= u32::MAX
}

/// The canonical card a raw entry starts as: parsed identifier and
/// quantity, default set, fallback rarity, not foil, zero primary price,
/// absent secondary price.
pub open spec fn raw_card(cat_id: Seq<char>, quantity: Seq<char>, name: Seq<char>) -> MtgoCardV {
    MtgoCardV {
        id: dec_value(cat_id) as u32,
        quantity: dec_value(quantity) as u32,
        name: name,
        set: Seq::empty(),
        rarity: Rarity::Unknown,
        foil: false,
        goatbots_price: seq!['0'],
        scryfall_price: None,
    }
}

/// The removable keyed metadata store: definitions are looked up and
/// consumed by identifier, making the one-shot transfer of fusion visible
/// in the interface.
pub struct CardDefinitions {
    entries: Vec<(u32, GoatBotsCard)>,
}

impl View for CardDefinitions {
    type V = Seq<(u32, GoatBotsCardV)>;

    closed spec fn view(&self) -> Seq<(u32, GoatBotsCardV)> {
        self.entries@.map_values(|e: (u32, GoatBotsCard)| (e.0, e.1@))
    }
}

/// True when the store holds a definition for this identifier.
pub open spec fn defs_has(s: Seq<(u32, GoatBotsCardV)>, id: u32) -> bool {
    exists|i: int| 0 <= i < s.len() && s[i].0 == id
}

/// The definition stored for this identifier (meaningful under unique
/// keys).
pub open spec fn defs_at(s: Seq<(u32, GoatBotsCardV)>, id: u32) -> GoatBotsCardV {
    s[choose|i: int| 0 <= i < s.len() && s[i].0 == id].1
}

/// No two entries share a key.
pub open spec fn defs_unique(s: Seq<(u32, GoatBotsCardV)>) -> bool {
    forall|i: int, j: int| 0 <= i < j < s.len() ==> (#[trigger] s[i]).0 != (#[trigger] s[j]).0
}

impl CardDefinitions {
    pub fn new() -> (r: CardDefinitions)
        ensures
            r@ == Seq::<(u32, GoatBotsCardV)>::empty(),
    {
        let r = CardDefinitions { entries: Vec::new() };
        proof {
            assert(r@ =~= Seq::<(u32, GoatBotsCardV)>::empty());
        }
        r
    }

    /// The number of definitions held.
    pub fn len(&self) -> (r: usize)
        ensures
            r == self@.len(),
    {
        self.entries.len()
    }

    /// Adds a definition under a fresh key; an already-present key leaves
    /// the store unchanged and returns false.
    pub fn insert(&mut self, id: u32, card: GoatBotsCard) -> (r: bool)
        requires
            defs_unique(old(self)@),
        ensures
            defs_unique(final(self)@),
            r == !defs_has(old(self)@, id),
            r ==> final(self)@ == old(self)@.push((id, card@)),
            !r ==> final(self)@ == old(self)@,
    {
        let mut i: usize = 0;
        while i < self.entries.len()
            invariant
                i <= self.entries@.len(),
                forall|k: int| 0 <= k < i ==> (#[trigger] self@[k]).0 != id,
                self@ == old(self)@,
                defs_unique(old(self)@),
            decreases self.entries@.len() - i,
        {
            if self.entries[i].0 == id {
                proof {
                    assert(self@[i as int].0 == id);
                }
                return false;
            }
            i = i + 1;
        }
        proof {
            if defs_has(self@, id) {
                let k = choose|k: int| 0 <= k < self@.len() && self@[k].0 == id;
                assert(self@[k].0 != id);
            }
        }
        let ghost pre = self@;
        self.entries.push((id, card));
        proof {
            assert(self@ =~= pre.push((id, card@)));
            assert forall|p: int, q: int|
                0 <= p < q < self@.len() implies (#[trigger] self@[p]).0 != (
            #[trigger] self@[q]).0 by {
                if q == self@.len() - 1 {
                    assert(self@[p] == pre[p]);
                }
            }
        }
        true
    }

    /// Removes and returns the definition for this identifier, if any.
    pub fn remove(&mut self, id: u32) -> (r: Option<GoatBotsCard>)
        requires
            defs_unique(old(self)@),
        ensures
            defs_unique(final(self)@),
            match r {
                Some(card) => {
                    &&& defs_has(old(self)@, id)
                    &&& card@ == defs_at(old(self)@, id)
                },
                None => !defs_has(old(self)@, id),
            },
            forall|k: u32|
                k != id ==> (#[trigger] defs_has(final(self)@, k) <==> defs_has(old(self)@, k)),
            forall|k: u32|
                k != id && defs_has(old(self)@, k) ==> #[trigger] defs_at(final(self)@, k)
                    == defs_at(old(self)@, k),
            !defs_has(final(self)@, id),
    {
        let ghost pre = self@;
        let mut i: usize = 0;
        while i < self.entries.len()
            invariant
                i <= self.entries@.len(),
                forall|k: int| 0 <= k < i ==> (#[trigger] self@[k]).0 != id,
                self@ == pre,
                pre == old(self)@,
                defs_unique(pre),
            decreases self.entries@.len() - i,
        {
            if self.entries[i].0 == id {
                proof {
                    assert(self@[i as int].0 == id);
                }
                let e = self.entries.remove(i);
                proof {
                    assert(self@ =~= pre.remove(i as int));
                    assert(forall|k: int| 0 <= k < i ==> self@[k] == pre[k]);
                    assert(forall|k: int|
                        i <= k < self@.len() ==> #[trigger] self@[k] == pre[k + 1]);
                    assert(e.1@ == pre[i as int].1);
                    assert(defs_at(pre, id) == pre[choose|k: int|
                        0 <= k < pre.len() && pre[k].0 == id].1);
                    let c = choose|k: int| 0 <= k < pre.len() && pre[k].0 == id;
                    assert(c == i);
                    assert forall|p: int, q: int|
                        0 <= p < q < self@.len() implies (#[trigger] self@[p]).0 != (
                    #[trigger] self@[q]).0 by {
                        let p2: int = if p < i { p } else { p + 1 };
                        let q2: int = if q < i { q } else { q + 1 };
                        assert(self@[p] == pre[p2] && self@[q] == pre[q2]);
                    }
                    assert(!defs_has(self@, id)) by {
                        if defs_has(self@, id) {
                            let k = choose|k: int| 0 <= k < self@.len() && self@[k].0 == id;
                            let k2: int = if k < i { k } else { k + 1 };
                            assert(pre[k2].0 == id);
                            assert(k2 != i);
                        }
                    }
                    assert forall|k: u32|
                        k != id implies (#[trigger] defs_has(self@, k) <==> defs_has(
                        pre,
                        k,
                    )) by {
                        if defs_has(self@, k) {
                            let m = choose|m: int| 0 <= m < self@.len() && self@[m].0 == k;
                            let m2: int = if m < i { m } else { m + 1 };
                            assert(pre[m2].0 == k);
                        }
                        if defs_has(pre, k) {
                            let m = choose|m: int| 0 <= m < pre.len() && pre[m].0 == k;
                            assert(m != i);
                            let m2: int = if m < i { m } else { m - 1 };
                            assert(self@[m2].0 == k);
                        }
                    }
                    assert forall|k: u32|
                        k != id && defs_has(pre, k) implies #[trigger] defs_at(self@, k)
                        == defs_at(pre, k) by {
                        assert(defs_has(self@, k));
                        let m = choose|m: int| 0 <= m < self@.len() && self@[m].0 == k;
                        let m0 = choose|m0: int| 0 <= m0 < pre.len() && pre[m0].0 == k;
                        let m2: int = if m < i { m } else { m + 1 };
                        assert(self@[m].0 == k);
                        assert(self@[m] == pre[m2]);
                        assert(pre[m2].0 == k);
                        assert(m2 == m0);
                        assert(self@[m].1 == pre[m0].1);
                    }
                }
                return Some(e.1);
            }
            i = i + 1;
        }
        proof {
            if defs_has(self@, id) {
                let k = choose|k: int| 0 <= k < self@.len() && self@[k].0 == id;
                assert(self@[k].0 != id);
            }
        }
        None
    }
}

/// The identifier-keyed primary price store, looked up without consuming.
/// Every stored price is valid price text.
pub struct PriceList {
    entries: Vec<(u32, String)>,
}

impl View for PriceList {
    type V = Seq<(u32, Seq<char>)>;

    closed spec fn view(&self) -> Seq<(u32, Seq<char>)> {
        self.entries@.map_values(|e: (u32, String)| (e.0, e.1@))
    }
}

/// True when the store holds a price for this identifier.
pub open spec fn prices_has(s: Seq<(u32, Seq<char>)>, id: u32) -> bool {
    exists|i: int| 0 <= i < s.len() && s[i].0 == id
}

/// The price stored for this identifier (meaningful under unique keys).
pub open spec fn prices_at(s: Seq<(u32, Seq<char>)>, id: u32) -> Seq<char> {
    s[choose|i: int| 0 <= i < s.len() && s[i].0 == id].1
}

/// Unique keys and valid price text throughout.
pub open spec fn prices_wf(s: Seq<(u32, Seq<char>)>) -> bool {
    &&& forall|i: int, j: int|
        0 <= i < j < s.len() ==> (#[trigger] s[i]).0 != (#[trigger] s[j]).0
    &&& forall|i: int| 0 <= i < s.len() ==> price_ok((#[trigger] s[i]).1)
}

impl PriceList {
    pub fn new() -> (r: PriceList)
        ensures
            r@ == Seq::<(u32, Seq<char>)>::empty(),
    {
        let r = PriceList { entries: Vec::new() };
        proof {
            assert(r@ =~= Seq::<(u32, Seq<char>)>::empty());
        }
        r
    }

    /// The number of prices held.
    pub fn len(&self) -> (r: usize)
        ensures
            r == self@.len(),
    {
        self.entries.len()
    }

    /// Adds a price under a fresh key. Returns false, leaving the store
    /// unchanged, when the key is present already or the text is not a
    /// valid price.
    pub fn insert(&mut self, id: u32, price: String) -> (r: bool)
        requires
            prices_wf(old(self)@),
        ensures
            prices_wf(final(self)@),
            r == (!prices_has(old(self)@, id) && price_ok(price@)),
            r ==> final(self)@ == old(self)@.push((id, price@)),
            !r ==> final(self)@ == old(self)@,
    {
        let chars = str_to_chars(price.as_str());
        let n = chars.len();
        let ghost pv = price@;
        proof {
            assert(chars@.subrange(0, n as int) =~= price@);
        }
        if !check_price_range(&chars, 0, n) {
            return false;
        }
        let mut i: usize = 0;
        while i < self.entries.len()
            invariant
                i <= self.entries@.len(),
                forall|k: int| 0 <= k < i ==> (#[trigger] self@[k]).0 != id,
                self@ == old(self)@,
                prices_wf(old(self)@),
            decreases self.entries@.len() - i,
        {
            if self.entries[i].0 == id {
                proof {
                    assert(self@[i as int].0 == id);
                }
                return false;
            }
            i = i + 1;
        }
        proof {
            if prices_has(self@, id) {
                let k = choose|k: int| 0 <= k < self@.len() && self@[k].0 == id;
                assert(self@[k].0 != id);
            }
        }
        let ghost pre = self@;
        self.entries.push((id, price));
        proof {
            assert(self@ =~= pre.push((id, pv)));
            assert forall|p: int, q: int|
                0 <= p < q < self@.len() implies (#[trigger] self@[p]).0 != (
            #[trigger] self@[q]).0 by {
                if q == self@.len() - 1 {
                    assert(self@[p] == pre[p]);
                }
            }
            assert forall|k: int| 0 <= k < self@.len() implies price_ok(
                (#[trigger] self@[k]).1,
            ) by {
                if k < self@.len() - 1 {
                    assert(self@[k] == pre[k]);
                }
            }
        }
        true
    }

    /// Looks up the price for this identifier without consuming it.
    pub fn get(&self, id: u32) -> (r: Option<String>)
        requires
            prices_wf(self@),
        ensures
            match r {
                Some(p) => prices_has(self@, id) && p@ == prices_at(self@, id),
                None => !prices_has(self@, id),
            },
    {
        let mut i: usize = 0;
        while i < self.entries.len()
            invariant
                i <= self.entries@.len(),
                forall|k: int| 0 <= k < i ==> (#[trigger] self@[k]).0 != id,
                prices_wf(self@),
            decreases self.entries@.len() - i,
        {
            if self.entries[i].0 == id {
                let p = self.entries[i].1.clone();
                proof {
                    assert(self@[i as int].0 == id);
                    let c = choose|k: int| 0 <= k < self@.len() && self@[k].0 == id;
                    assert(c == i);
                    assert(p@ == self@[i as int].1);
                }
                return Some(p);
            }
            i = i + 1;
        }
        proof {
            if prices_has(self@, id) {
                let k = choose|k: int| 0 <= k < self@.len() && self@[k].0 == id;
                assert(self@[k].0 != id);
            }
        }
        None
    }
}

/// The ghost images of a catalog.
pub open spec fn scry_views(s: Seq<ScryfallCard>) -> Seq<crate::card::ScryfallCardV> {
    s.map_values(|c: ScryfallCard| c@)
}

/// True when the catalog carries an entry for this identifier.
pub open spec fn has_scry(cs: Seq<crate::card::ScryfallCardV>, id: u32) -> bool {
    exists|i: int| 0 <= i < cs.len() && cs[i].mtgo_id == id
}

/// The catalog entry for this identifier (meaningful under unique
/// identifiers).
pub open spec fn scry_of(cs: Seq<crate::card::ScryfallCardV>, id: u32) -> crate::card::ScryfallCardV {
    cs[choose|i: int| 0 <= i < cs.len() && cs[i].mtgo_id == id]
}

/// No two catalog entries share an identifier.
pub open spec fn unique_scry_ids(cs: Seq<crate::card::ScryfallCardV>) -> bool {
    forall|i: int, j: int|
        0 <= i < j < cs.len() ==> (#[trigger] cs[i]).mtgo_id != (#[trigger] cs[j]).mtgo_id
}

/// A card after the metadata/primary-price fusion step: the ticket card is
/// pinned to primary price 1, every other card takes set, rarity and foil
/// from its definition and its price from the price store, keeping the
/// defaults on a missing key.
pub open spec fn fused_gb(
    c: MtgoCardV,
    defs: Seq<(u32, GoatBotsCardV)>,
    prices: Seq<(u32, Seq<char>)>,
) -> MtgoCardV {
    if c.id == EVENT_TICKET_ID {
        MtgoCardV { goatbots_price: seq!['1'], ..c }
    } else {
        let withdef = if defs_has(defs, c.id) {
            MtgoCardV {
                set: defs_at(defs, c.id).cardset,
                rarity: crate::card::rarity_of_text(defs_at(defs, c.id).rarity),
                foil: defs_at(defs, c.id).foil == 1,
                ..c
            }
        } else {
            c
        };
        if prices_has(prices, c.id) {
            MtgoCardV { goatbots_price: prices_at(prices, c.id), ..withdef }
        } else {
            withdef
        }
    }
}

/// A card after the secondary-price fusion step: foil cards are skipped,
/// the ticket card is pinned to secondary price 1, and every other card
/// takes the `tix` price of its catalog entry when one is recorded.
pub open spec fn fused_scry(c: MtgoCardV, cat: Seq<crate::card::ScryfallCardV>) -> MtgoCardV {
    if c.foil {
        c
    } else if c.id == EVENT_TICKET_ID {
        MtgoCardV { scryfall_price: Some(seq!['1']), ..c }
    } else if has_scry(cat, c.id) {
        match scry_of(cat, c.id).tix {
            Some(t) => MtgoCardV { scryfall_price: Some(t), ..c },
            None => c,
        }
    } else {
        c
    }
}

/// An ordered sequence of canonical per-card records, exclusively owned by
/// one fusion pass, with a total-quantity cache computed once on first
/// request and never invalidated.
#[derive(Debug)]
pub struct Collection {
    cards: Vec<MtgoCard>,
    total_quantity: Option<u32>,
}

/// Ghost image of a collection.
pub ghost struct CollectionV {
    pub cards: Seq<MtgoCardV>,
    pub total_quantity: Option<u32>,
}

impl View for Collection {
    type V = CollectionV;

    closed spec fn view(&self) -> CollectionV {
        CollectionV { cards: card_views(self.cards@), total_quantity: self.total_quantity }
    }
}

/// The total quantity held across a card sequence.
pub open spec fn sum_quantities(cards: Seq<MtgoCardV>) -> int
    decreases cards.len(),
{
    if cards.len() == 0 {
        0
    } else {
        sum_quantities(cards.drop_last()) + cards.last().quantity
    }
}

/// Looks up the `tix` price recorded for this identifier in the catalog.
fn find_tix(catalog: &Vec<ScryfallCard>, id: u32) -> (r: Option<Option<String>>)
    requires
        unique_scry_ids(scry_views(catalog@)),
    ensures
        match r {
            None => !has_scry(scry_views(catalog@), id),
            Some(t) => {
                &&& has_scry(scry_views(catalog@), id)
                &&& (match t {
                    Some(p) => Some(p@),
                    None => None,
                }) == scry_of(scry_views(catalog@), id).tix
            },
        },
{
    let ghost cs = scry_views(catalog@);
    let mut i: usize = 0;
    while i < catalog.len()
        invariant
            i <= catalog@.len(),
            cs == scry_views(catalog@),
            unique_scry_ids(cs),
            forall|k: int| 0 <= k < i ==> (#[trigger] cs[k]).mtgo_id != id,
        decreases catalog@.len() - i,
    {
        if catalog[i].mtgo_id == id {
            proof {
                assert(cs[i as int].mtgo_id == id);
                let c = choose|k: int| 0 <= k < cs.len() && cs[k].mtgo_id == id;
                assert(c == i);
            }
            let t = match &catalog[i].prices.tix {
                Some(p) => Some(p.clone()),
                None => None,
            };
            return Some(t);
        }
        i = i + 1;
    }
    proof {
        if has_scry(cs, id) {
            let k = choose|k: int| 0 <= k < cs.len() && cs[k].mtgo_id == id;
            assert(cs[k].mtgo_id != id);
        }
    }
    None
}

impl Collection {
    /// Converts raw inventory entries into a collection of canonical cards
    /// with default fields, parsing identifier and quantity. A single
    /// malformed number aborts the whole conversion.
    pub fn from_xml_cards(cards: Vec<XmlCard>) -> (r: Result<Collection, ParseFailure>)
        ensures
            match r {
                Ok(c) => {
                    &&& forall|i: int|
                        0 <= i < cards@.len() ==> entry_ok(
                            (#[trigger] cards@[i])@.cat_id,
                            cards@[i]@.quantity,
                        )
                    &&& c@.cards.len() == cards@.len()
                    &&& forall|i: int|
                        0 <= i < cards@.len() ==> #[trigger] c@.cards[i] == raw_card(
                            cards@[i]@.cat_id,
                            cards@[i]@.quantity,
                            cards@[i]@.name,
                        )
                    &&& c@.total_quantity is None
                },
                Err(_) => exists|i: int|
                    0 <= i < cards@.len() && !entry_ok(
                        (#[trigger] cards@[i])@.cat_id,
                        cards@[i]@.quantity,
                    ),
            },
    {
        let ghost origv = cards@;
        let mut rest = cards;
        let mut out: Vec<MtgoCard> = Vec::new();
        let ghost n = origv.len();
        while rest.len() > 0
            invariant
                out@.len() + rest@.len() == n,
                n == origv.len(),
                origv == cards@,
                forall|i: int| 0 <= i < rest@.len() ==> #[trigger] rest@[i] == origv[
                    out@.len() + i],
                forall|i: int|
                    0 <= i < out@.len() ==> entry_ok(
                        (#[trigger] origv[i])@.cat_id,
                        origv[i]@.quantity,
                    ),
                forall|i: int|
                    0 <= i < out@.len() ==> #[trigger] card_views(out@)[i] == raw_card(
                        origv[i]@.cat_id,
                        origv[i]@.quantity,
                        origv[i]@.name,
                    ),
            decreases rest@.len(),
        {
            let ghost done = out@.len();
            let ghost pre_rest = rest@;
            let x = rest.remove(0);
            proof {
                assert(x == pre_rest[0]);
                assert(x == origv[done as int]);
                assert(0 <= done < origv.len());
            }
            let idc = str_to_chars(x.cat_id.as_str());
            let nid = idc.len();
            let id = match parse_u32_range(&idc, 0, nid) {
                Some(v) => v,
                None => {
                    proof {
                        assert(idc@.subrange(0, nid as int) =~= x.cat_id@);
                        assert(0 <= done < cards@.len() && !entry_ok(
                            (#[trigger] cards@[done as int])@.cat_id,
                            cards@[done as int]@.quantity,
                        ));
                    }
                    return Err(ParseFailure);
                },
            };
            let qc = str_to_chars(x.quantity.as_str());
            let nq = qc.len();
            let quantity = match parse_u32_range(&qc, 0, nq) {
                Some(v) => v,
                None => {
                    proof {
                        assert(qc@.subrange(0, nq as int) =~= x.quantity@);
                        assert(0 <= done < cards@.len() && !entry_ok(
                            (#[trigger] cards@[done as int])@.cat_id,
                            cards@[done as int]@.quantity,
                        ));
                    }
                    return Err(ParseFailure);
                },
            };
            let mut zero: Vec<char> = Vec::new();
            zero.push('0');
            let card = MtgoCard {
                id,
                quantity,
                name: x.name,
                set: String::new(),
                rarity: Rarity::Unknown,
                foil: false,
                goatbots_price: chars_to_string(&zero),
                scryfall_price: None,
            };
            proof {
                assert(idc@.subrange(0, nid as int) =~= x.cat_id@);
                assert(qc@.subrange(0, nq as int) =~= x.quantity@);
                assert(card@ == raw_card(
                    origv[done as int]@.cat_id,
                    origv[done as int]@.quantity,
                    origv[done as int]@.name,
                ));
            }
            let ghost pre_out = out@;
            out.push(card);
            proof {
                assert(card_views(out@) =~= card_views(pre_out).push(card@));
            }
        }
        Ok(Collection { cards: out, total_quantity: None })
    }

    /// The number of distinct card records held.
    pub fn unique_cards(&self) -> (r: usize)
        ensures
            r == self@.cards.len(),
    {
        self.cards.len()
    }

    /// The total quantity across all cards, computed once and cached.
    ///
    /// The cache is never invalidated: if the cards change after the first
    /// request (for example through `take_cards`), later requests return
    /// the stale cached value. This is a documented invariant risk of the
    /// type, not corrected silently.
    pub fn total_cards(&mut self) -> (r: u32)
        requires
            old(self)@.total_quantity is None ==> sum_quantities(old(self)@.cards) <= u32::MAX,
        ensures
            r == match old(self)@.total_quantity {
                Some(v) => v as int,
                None => sum_quantities(old(self)@.cards),
            },
            final(self)@.total_quantity == Some(r),
            final(self)@.cards == old(self)@.cards,
    {
        match self.total_quantity {
            Some(v) => v,
            None => {
                let ghost cv = card_views(self.cards@);
                let mut acc: u32 = 0;
                let mut i: usize = 0;
                proof {
                    assert(cv.subrange(0, 0) =~= Seq::<MtgoCardV>::empty());
                }
                while i < self.cards.len()
                    invariant
                        i <= self.cards@.len(),
                        cv == card_views(self.cards@),
                        self@ == old(self)@,
                        acc == sum_quantities(cv.subrange(0, i as int)),
                        sum_quantities(cv) <= u32::MAX,
                    decreases self.cards@.len() - i,
                {
                    proof {
                        lemma_sum_prefix(cv, i as int);
                        assert(cv.subrange(0, i + 1).drop_last() =~= cv.subrange(0, i as int));
                        assert(cv.subrange(0, i + 1).last() == cv[i as int]);
                        assert(cv[i as int] == self.cards@[i as int]@);
                    }
                    acc = acc + self.cards[i].quantity;
                    i = i + 1;
                }
                proof {
                    assert(cv.subrange(0, cv.len() as int) =~= cv);
                }
                self.total_quantity = Some(acc);
                acc
            },
        }
    }

    /// Moves the cards out, leaving the collection empty. The cached total
    /// is deliberately left in place, reproducing the staleness risk of
    /// the cache.
    pub fn take_cards(&mut self) -> (r: Vec<MtgoCard>)
        ensures
            card_views(r@) == old(self)@.cards,
            final(self)@.cards == Seq::<MtgoCardV>::empty(),
            final(self)@.total_quantity == old(self)@.total_quantity,
    {
        let mut taken: Vec<MtgoCard> = Vec::new();
        core::mem::swap(&mut taken, &mut self.cards);
        proof {
            assert(card_views(self.cards@) =~= Seq::<MtgoCardV>::empty());
        }
        taken
    }

    /// Fuses the metadata store and the primary price store into the
    /// collection: the ticket card is pinned to primary price 1 and
    /// bypasses both lookups; every other card takes set, rarity and foil
    /// from its definition, consuming it from the store, and its primary
    /// price by a non-consuming lookup. A missing key is non-fatal and
    /// leaves the defaults.
    #[verifier::rlimit(50)]
    pub fn extract_goatbots_info(&mut self, card_defs: &mut CardDefinitions, price_hist: &PriceList)
        requires
            unique_card_ids(old(self)@.cards),
            defs_unique(old(card_defs)@),
            prices_wf(price_hist@),
        ensures
            final(self)@.cards.len() == old(self)@.cards.len(),
            forall|i: int|
                0 <= i < old(self)@.cards.len() ==> #[trigger] final(self)@.cards[i] == fused_gb(
                    old(self)@.cards[i],
                    old(card_defs)@,
                    price_hist@,
                ),
            final(self)@.total_quantity == old(self)@.total_quantity,
            defs_unique(final(card_defs)@),
            forall|k: u32|
                #[trigger] defs_has(final(card_defs)@, k) <==> defs_has(old(card_defs)@, k) && !(
                exists|i: int|
                    0 <= i < old(self)@.cards.len() && (#[trigger] old(self)@.cards[i]).id == k
                        && k != EVENT_TICKET_ID),
            forall|k: u32|
                defs_has(final(card_defs)@, k) ==> #[trigger] defs_at(final(card_defs)@, k)
                    == defs_at(old(card_defs)@, k),
    {
        let ghost origv = old(self)@.cards;
        let ghost defs0 = old(card_defs)@;
        let ghost n = origv.len();
        let mut rest: Vec<MtgoCard> = Vec::new();
        core::mem::swap(&mut rest, &mut self.cards);
        let mut out: Vec<MtgoCard> = Vec::new();
        proof {
            assert(card_views(rest@) =~= origv);
        }
        while rest.len() > 0
            invariant
                out@.len() + rest@.len() == n,
                n == origv.len(),
                unique_card_ids(origv),
                defs_unique(defs0),
                prices_wf(price_hist@),
                defs_unique(card_defs@),
                forall|i: int|
                    0 <= i < rest@.len() ==> #[trigger] card_views(rest@)[i] == origv[
                    out@.len() + i],
                forall|i: int|
                    0 <= i < out@.len() ==> #[trigger] card_views(out@)[i] == fused_gb(
                        origv[i],
                        defs0,
                        price_hist@,
                    ),
                forall|k: u32|
                    #[trigger] defs_has(card_defs@, k) <==> defs_has(defs0, k) && !(exists|i: int|
                        0 <= i < out@.len() && (#[trigger] origv[i]).id == k && k
                            != EVENT_TICKET_ID),
                forall|k: u32|
                    defs_has(card_defs@, k) ==> #[trigger] defs_at(card_defs@, k) == defs_at(
                        defs0,
                        k,
                    ),
            decreases rest@.len(),
        {
            let ghost done = out@.len() as int;
            let ghost pre_defs = card_defs@;
            let ghost pre_rest = rest@;
            let mut card = rest.remove(0);
            proof {
                assert(card == pre_rest[0]);
                assert(card_views(pre_rest)[0] == origv[done]);
                assert(card@ == origv[done]);
                assert forall|i: int|
                    0 <= i < rest@.len() implies #[trigger] card_views(rest@)[i] == origv[
                    done + 1 + i] by {
                    assert(rest@[i] == pre_rest[i + 1]);
                    assert(card_views(pre_rest)[i + 1] == origv[done + 1 + i]);
                }
            }
            if card.id == EVENT_TICKET_ID {
                let mut one: Vec<char> = Vec::new();
                one.push('1');
                card.goatbots_price = chars_to_string(&one);
                proof {
                    assert(card@ == fused_gb(origv[done], defs0, price_hist@));
                }
            } else {
                proof {
                    assert(defs_has(card_defs@, card.id) <==> defs_has(defs0, card.id)) by {
                        if exists|i: int|
                            0 <= i < done && (#[trigger] origv[i]).id == card@.id && card@.id
                                != EVENT_TICKET_ID {
                            let i = choose|i: int|
                                0 <= i < done && (#[trigger] origv[i]).id == card@.id;
                            assert(origv[i].id != origv[done].id);
                        }
                    }
                }
                match card_defs.remove(card.id) {
                    Some(cd) => {
                        card.set = cd.cardset;
                        card.rarity = Rarity::from_text(cd.rarity.as_str());
                        card.foil = cd.foil == 1;
                    },
                    None => {},
                }
                match price_hist.get(card.id) {
                    Some(p) => {
                        card.goatbots_price = p;
                    },
                    None => {},
                }
                proof {
                    assert(card@ == fused_gb(origv[done], defs0, price_hist@));
                    assert forall|k: u32| #[trigger] defs_has(card_defs@, k) <==> (defs_has(
                        defs0,
                        k,
                    ) && !(exists|i: int|
                        0 <= i < done + 1 && (#[trigger] origv[i]).id == k && k
                            != EVENT_TICKET_ID)) by {
                        if k == origv[done].id {
                            assert(!defs_has(card_defs@, k));
                            assert(0 <= done < done + 1 && origv[done].id == k);
                        } else {
                            assert(defs_has(card_defs@, k) <==> defs_has(pre_defs, k));
                            if exists|i: int|
                                0 <= i < done + 1 && (#[trigger] origv[i]).id == k && k
                                    != EVENT_TICKET_ID {
                                let i = choose|i: int|
                                    0 <= i < done + 1 && (#[trigger] origv[i]).id == k && k
                                        != EVENT_TICKET_ID;
                                assert(i < done);
                            }
                        }
                    }
                }
            }
            let ghost pre_out = out@;
            out.push(card);
            proof {
                assert(card_views(out@) =~= card_views(pre_out).push(card@));
            }
        }
        core::mem::swap(&mut out, &mut self.cards);
        proof {
            assert(self@.cards.len() == n);
        }
    }

    /// Fuses the secondary price catalog into the collection, sorting the
    /// collection ascending by identifier first. Foil cards are skipped
    /// (the catalog has no foil prices) and the ticket card is pinned to
    /// secondary price 1; every other card takes the `tix` price of its
    /// catalog entry when one is recorded.
    ///
    /// The catalog cursor of the scan stops at each card's first match and
    /// resumes for the next card; under the unique-identifier assumption
    /// this gives each card exactly the `tix` price keyed by its
    /// identifier, rather than letting the first card drive the cursor to
    /// exhaustion.
    pub fn extract_scryfall_info(&mut self, scryfall_cards: Vec<ScryfallCard>)
        requires
            unique_card_ids(old(self)@.cards),
            unique_scry_ids(scry_views(scryfall_cards@)),
        ensures
            final(self)@.cards.len() == old(self)@.cards.len(),
            crate::history::cards_sorted_by_id(final(self)@.cards),
            unique_card_ids(final(self)@.cards),
            forall|id: u32|
                #[trigger] has_card_id(final(self)@.cards, id) <==> has_card_id(
                    old(self)@.cards,
                    id,
                ),
            forall|id: u32|
                has_card_id(old(self)@.cards, id) ==> #[trigger] card_of(final(self)@.cards, id)
                    == fused_scry(card_of(old(self)@.cards, id), scry_views(scryfall_cards@)),
            final(self)@.total_quantity == old(self)@.total_quantity,
    {
        let ghost origv = old(self)@.cards;
        let ghost cat = scry_views(scryfall_cards@);
        let mut taken: Vec<MtgoCard> = Vec::new();
        core::mem::swap(&mut taken, &mut self.cards);
        proof {
            assert(card_views(taken@) =~= origv);
        }
        let sorted = crate::history::sort_cards_by_id(taken);
        let ghost sortedv = card_views(sorted@);
        proof {
            crate::history::lemma_card_perm_lookup(origv, sortedv);
        }
        let mut rest = sorted;
        let mut out: Vec<MtgoCard> = Vec::new();
        let ghost n = sortedv.len();
        while rest.len() > 0
            invariant
                out@.len() + rest@.len() == n,
                n == sortedv.len(),
                unique_scry_ids(cat),
                cat == scry_views(scryfall_cards@),
                forall|i: int|
                    0 <= i < rest@.len() ==> #[trigger] card_views(rest@)[i] == sortedv[
                    out@.len() + i],
                forall|i: int|
                    0 <= i < out@.len() ==> #[trigger] card_views(out@)[i] == fused_scry(
                        sortedv[i],
                        cat,
                    ),
            decreases rest@.len(),
        {
            let ghost done = out@.len() as int;
            let ghost pre_rest = rest@;
            let mut card = rest.remove(0);
            proof {
                assert(card == pre_rest[0]);
                assert(card_views(pre_rest)[0] == sortedv[done]);
                assert(card@ == sortedv[done]);
                assert forall|i: int|
                    0 <= i < rest@.len() implies #[trigger] card_views(rest@)[i] == sortedv[
                    done + 1 + i] by {
                    assert(rest@[i] == pre_rest[i + 1]);
                    assert(card_views(pre_rest)[i + 1] == sortedv[done + 1 + i]);
                }
            }
            if card.foil {
            } else if card.id == EVENT_TICKET_ID {
                let mut one: Vec<char> = Vec::new();
                one.push('1');
                card.scryfall_price = Some(chars_to_string(&one));
            } else {
                match find_tix(&scryfall_cards, card.id) {
                    Some(Some(t)) => {
                        card.scryfall_price = Some(t);
                    },
                    Some(None) => {},
                    None => {},
                }
            }
            proof {
                assert(card@ == fused_scry(sortedv[done], cat));
            }
            let ghost pre_out = out@;
            out.push(card);
            proof {
                assert(card_views(out@) =~= card_views(pre_out).push(card@));
            }
        }
        core::mem::swap(&mut out, &mut self.cards);
        proof {
            let outv = self@.cards;
            assert(outv.len() == n);
            assert(forall|i: int| 0 <= i < n ==> (#[trigger] outv[i]).id == sortedv[i].id);
            assert forall|p: int, q: int|
                0 <= p < q < n implies (#[trigger] outv[p]).id <= (#[trigger] outv[q]).id by {
                assert(sortedv[p].id <= sortedv[q].id);
            }
            assert forall|p: int, q: int|
                0 <= p < q < n implies (#[trigger] outv[p]).id != (#[trigger] outv[q]).id by {
                assert(sortedv[p].id != sortedv[q].id);
            }
            assert forall|id: u32| #[trigger] has_card_id(outv, id) <==> has_card_id(
                origv,
                id,
            ) by {
                if has_card_id(outv, id) {
                    let i = choose|i: int| 0 <= i < outv.len() && outv[i].id == id;
                    assert(sortedv[i].id == id);
                    assert(has_card_id(sortedv, id));
                } else {
                    if has_card_id(sortedv, id) {
                        let i = choose|i: int| 0 <= i < sortedv.len() && sortedv[i].id == id;
                        assert(outv[i].id == id);
                    }
                }
            }
            assert forall|id: u32| has_card_id(origv, id) implies #[trigger] card_of(outv, id)
                == fused_scry(card_of(origv, id), cat) by {
                assert(has_card_id(outv, id));
                assert(has_card_id(sortedv, id));
                let i = choose|i: int| 0 <= i < outv.len() && outv[i].id == id;
                let k = choose|k: int| 0 <= k < sortedv.len() && sortedv[k].id == id;
                assert(outv[i].id == id);
                assert(sortedv[i].id == id);
                assert(i == k);
                assert(card_of(sortedv, id) == sortedv[k]);
                assert(card_of(origv, id) == card_of(sortedv, id));
                assert(outv[i] == fused_scry(sortedv[i], cat));
            }
        }
    }
}

/// One step of the running total.
proof fn lemma_sum_prefix(cards: Seq<MtgoCardV>, i: int)
    requires
        0 <= i < cards.len(),
    ensures
        sum_quantities(cards.subrange(0, i + 1)) == sum_quantities(cards.subrange(0, i))
            + cards[i].quantity,
        sum_quantities(cards.subrange(0, i + 1)) <= sum_quantities(cards),
{
    assert(cards.subrange(0, i + 1).drop_last() =~= cards.subrange(0, i));
    assert(cards.subrange(0, i + 1).last() == cards[i]);
    lemma_sum_prefix_le(cards, i + 1);
}

/// Quantities are non-negative, so a prefix total never exceeds the whole.
proof fn lemma_sum_prefix_le(cards: Seq<MtgoCardV>, k: int)
    requires
        0 <= k <= cards.len(),
    ensures
        sum_quantities(cards.subrange(0, k)) <= sum_quantities(cards),
    decreases cards.len() - k,
{
    if k < cards.len() {
        assert(cards.subrange(0, k + 1).drop_last() =~= cards.subrange(0, k));
        assert(cards.subrange(0, k + 1).last() == cards[k]);
        lemma_sum_prefix_le(cards, k + 1);
    } else {
        assert(cards.subrange(0, k) =~= cards);
    }
}

/// The Event Ticket law: a non-foil card carrying the reserved identifier
/// always leaves fusion with primary price 1 and secondary price 1,
/// independent of the contents of the definitions store, the price store
/// and the catalog.
pub proof fn lemma_ticket_pinned(
    c: MtgoCardV,
    defs: Seq<(u32, GoatBotsCardV)>,
    prices: Seq<(u32, Seq<char>)>,
    cat: Seq<crate::card::ScryfallCardV>,
)
    requires
        c.id == EVENT_TICKET_ID,
        !c.foil,
    ensures
        fused_scry(fused_gb(c, defs, prices), cat).goatbots_price == seq!['1'],
        fused_scry(fused_gb(c, defs, prices), cat).scryfall_price == Some(seq!['1']),
{
}

} // verus!

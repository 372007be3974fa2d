//! The per-card price/quantity time series and the ledger that aligns every
//! tracked card's observations with a shared sequence of timestamp labels,
//! plus the sorted three-way merge that folds a new snapshot into the ledger.

use vstd::multiset::Multiset;
use vstd::prelude::*;

use crate::card::{card_wf, MtgoCard, MtgoCardV, Rarity};
use crate::text::{
    chars_to_string, dec_of, is_canon_dec_u32, label_ok, lemma_dec_of_canon, name_ok, price_ok,
    push_dec_u32, set_ok,
};

verus! {

broadcast use {
    vstd::seq_lib::group_to_multiset_ensures,
    vstd::multiset::group_multiset_axioms,
};

/// Ghost image of one time-slice observation.
pub ghost struct ObsV {
    pub quantity: Option<u32>,
    pub goatbots_price: Option<Seq<char>>,
    pub scryfall_price: Option<Seq<char>>,
}

/// One time-slice observation: three independently optional fields.
///
/// An absent quantity means "unchanged since the previous observation for
/// this card"; an absent price means "not observed this period". Prices are
/// never delta-encoded, only quantity is.
#[derive(Clone, Debug, PartialEq)]
pub struct PriceHistoryTracker {
    pub quantity: Option<u32>,
    pub goatbots_price: Option<String>,
    pub scryfall_price: Option<String>,
}

impl View for PriceHistoryTracker {
    type V = ObsV;

    open spec fn view(&self) -> ObsV {
        ObsV {
            quantity: self.quantity,
            goatbots_price: match self.goatbots_price {
                Some(p) => Some(p@),
                None => None,
            },
            scryfall_price: match self.scryfall_price {
                Some(p) => Some(p@),
                None => None,
            },
        }
    }
}

/// Well-formedness of an observation: any recorded price is valid price
/// text.
pub open spec fn obs_wf(o: ObsV) -> bool {
    &&& match o.goatbots_price {
        Some(p) => price_ok(p),
        None => true,
    }
    &&& match o.scryfall_price {
        Some(p) => price_ok(p),
        None => true,
    }
}

impl PriceHistoryTracker {
    pub fn new(
        quantity: Option<u32>,
        goatbots_price: Option<String>,
        scryfall_price: Option<String>,
    ) -> (r: PriceHistoryTracker)
        ensures
            r == (PriceHistoryTracker { quantity, goatbots_price, scryfall_price }),
    {
        PriceHistoryTracker { quantity, goatbots_price, scryfall_price }
    }
}

impl Default for PriceHistoryTracker {
    /// The fully absent observation used to back-fill cards that predate
    /// their first appearance.
    fn default() -> (r: PriceHistoryTracker)
        ensures
            r@ == blank_obs(),
    {
        PriceHistoryTracker { quantity: None, goatbots_price: None, scryfall_price: None }
    }
}

/// Ghost image of a per-card history row.
pub ghost struct CardHistoryV {
    pub id: u32,
    pub quantity: Seq<char>,
    pub name: Seq<char>,
    pub set: Seq<char>,
    pub rarity: Rarity,
    pub foil: bool,
    pub price_history: Seq<ObsV>,
}

/// Per-card record of the time series: identifier, the last-known display
/// quantity as a text label, descriptive fields, and one observation per
/// ledger timestamp, aligned by position.
#[derive(Clone, Debug, PartialEq)]
pub struct CardHistory {
    pub id: u32,
    pub quantity: String,
    pub name: String,
    pub set: String,
    pub rarity: Rarity,
    pub foil: bool,
    pub price_history: Vec<PriceHistoryTracker>,
}

impl View for CardHistory {
    type V = CardHistoryV;

    open spec fn view(&self) -> CardHistoryV {
        CardHistoryV {
            id: self.id,
            quantity: self.quantity@,
            name: self.name@,
            set: self.set@,
            rarity: self.rarity,
            foil: self.foil,
            price_history: self.price_history@.map_values(|t: PriceHistoryTracker| t@),
        }
    }
}

/// Well-formedness of a history row: the quantity label is a canonical
/// decimal, the name and set obey the codec's character constraints, and
/// every observation is well-formed.
pub open spec fn hist_wf(h: CardHistoryV) -> bool {
    &&& is_canon_dec_u32(h.quantity)
    &&& name_ok(h.name)
    &&& set_ok(h.set)
    &&& forall|i: int| 0 <= i < h.price_history.len() ==> obs_wf(#[trigger] h.price_history[i])
}

/// The observation recorded for a card as it stands in a snapshot: quantity
/// and primary price present, secondary price as fused.
pub open spec fn snapshot_obs(c: MtgoCardV) -> ObsV {
    ObsV {
        quantity: Some(c.quantity),
        goatbots_price: Some(c.goatbots_price),
        scryfall_price: c.scryfall_price,
    }
}

/// The fully absent placeholder observation.
pub open spec fn blank_obs() -> ObsV {
    ObsV { quantity: None, goatbots_price: None, scryfall_price: None }
}

/// The observation recorded for a tracked card that is absent from the new
/// snapshot: quantity explicitly zero, both prices unobserved.
pub open spec fn gone_obs() -> ObsV {
    ObsV { quantity: Some(0), goatbots_price: None, scryfall_price: None }
}

/// The single-observation history a snapshot card starts with.
pub open spec fn snapshot_hist(c: MtgoCardV) -> CardHistoryV {
    CardHistoryV {
        id: c.id,
        quantity: dec_of(c.quantity as nat),
        name: c.name,
        set: c.set,
        rarity: c.rarity,
        foil: c.foil,
        price_history: seq![snapshot_obs(c)],
    }
}

impl CardHistory {
    pub fn new(
        id: u32,
        quantity: String,
        name: String,
        set: String,
        rarity: Rarity,
        foil: bool,
        price_history: Vec<PriceHistoryTracker>,
    ) -> (r: CardHistory)
        ensures
            r@ == (CardHistoryV {
                id,
                quantity: quantity@,
                name: name@,
                set: set@,
                rarity,
                foil,
                price_history: price_history@.map_values(|t: PriceHistoryTracker| t@),
            }),
    {
        CardHistory { id, quantity, name, set, rarity, foil, price_history }
    }

    /// Converts a fused snapshot card into a fresh one-observation history.
    pub fn from_mtgo_card(card: MtgoCard) -> (r: CardHistory)
        ensures
            r@ == snapshot_hist(card@),
            card_wf(card@) ==> hist_wf(r@),
    {
        let mut qchars: Vec<char> = Vec::new();
        push_dec_u32(card.quantity, &mut qchars);
        let quantity = chars_to_string(&qchars);
        let tracker = PriceHistoryTracker {
            quantity: Some(card.quantity),
            goatbots_price: Some(card.goatbots_price),
            scryfall_price: card.scryfall_price,
        };
        let mut price_history: Vec<PriceHistoryTracker> = Vec::new();
        price_history.push(tracker);
        let r = CardHistory {
            id: card.id,
            quantity,
            name: card.name,
            set: card.set,
            rarity: card.rarity,
            foil: card.foil,
            price_history,
        };
        proof {
            lemma_dec_of_canon(card.quantity as nat);
            assert(r@.price_history =~= seq![snapshot_obs(card@)]);
            assert(r@ == snapshot_hist(card@));
        }
        r
    }
}

/// The cached "newest known quantity" of a history: the last recorded
/// quantity, or zero when none was ever recorded.
pub open spec fn newest_quantity_of(obs: Seq<ObsV>) -> u32
    decreases obs.len(),
{
    if obs.len() == 0 {
        0
    } else {
        match obs.last().quantity {
            Some(q) => q,
            None => newest_quantity_of(obs.drop_last()),
        }
    }
}

/// Ghost image of a tracked card: its history plus the cached newest
/// quantity.
pub ghost struct AggV {
    pub card_history: CardHistoryV,
    pub newest_quantity: u32,
}

/// A `CardHistory` plus the cached newest known quantity, used to decide
/// whether the next observation may omit its quantity field.
#[derive(Clone, Debug, PartialEq)]
pub struct CardHistoryAggregate {
    pub card_history: CardHistory,
    pub newest_quantity: u32,
}

impl View for CardHistoryAggregate {
    type V = AggV;

    open spec fn view(&self) -> AggV {
        AggV { card_history: self.card_history@, newest_quantity: self.newest_quantity }
    }
}

/// Well-formedness of a tracked card: the history is well-formed and the
/// cache really holds the newest recorded quantity.
pub open spec fn agg_wf(a: AggV) -> bool {
    &&& hist_wf(a.card_history)
    &&& a.newest_quantity == newest_quantity_of(a.card_history.price_history)
}

impl CardHistoryAggregate {
    pub fn new(card_history: CardHistory, newest_quantity: u32) -> (r: CardHistoryAggregate)
        ensures
            r@ == (AggV { card_history: card_history@, newest_quantity }),
    {
        CardHistoryAggregate { card_history, newest_quantity }
    }
}

/// Ghost image of the whole ledger.
pub ghost struct CollectionHistoryV {
    pub timestamps: Seq<Seq<char>>,
    pub cards: Seq<AggV>,
}

/// The accumulated time series: a ledger of timestamp labels shared by all
/// tracked cards, and one aggregate per tracked card.
#[derive(Debug, PartialEq)]
pub struct CollectionHistory {
    pub timestamps: Vec<String>,
    pub card_histories: Vec<CardHistoryAggregate>,
}

impl View for CollectionHistory {
    type V = CollectionHistoryV;

    open spec fn view(&self) -> CollectionHistoryV {
        CollectionHistoryV {
            timestamps: self.timestamps@.map_values(|s: String| s@),
            cards: self.card_histories@.map_values(|a: CardHistoryAggregate| a@),
        }
    }
}

/// True when some tracked card carries this identifier.
pub open spec fn has_id(cards: Seq<AggV>, id: u32) -> bool {
    exists|i: int| 0 <= i < cards.len() && cards[i].card_history.id == id
}

/// The tracked card carrying this identifier (meaningful under unique
/// identifiers).
pub open spec fn agg_of(cards: Seq<AggV>, id: u32) -> AggV {
    cards[choose|i: int| 0 <= i < cards.len() && cards[i].card_history.id == id]
}

/// No two tracked cards share an identifier.
pub open spec fn unique_ids(cards: Seq<AggV>) -> bool {
    forall|i: int, j: int|
        0 <= i < j < cards.len() ==> (#[trigger] cards[i]).card_history.id != (
        #[trigger] cards[j]).card_history.id
}

/// Tracked cards ordered ascending by identifier.
pub open spec fn sorted_by_id(cards: Seq<AggV>) -> bool {
    forall|i: int, j: int|
        0 <= i < j < cards.len() ==> (#[trigger] cards[i]).card_history.id <= (
        #[trigger] cards[j]).card_history.id
}

/// The ledger invariant, holding after every merge: every observation
/// sequence is exactly as long as the ledger, identifiers are unique and
/// ascending, labels are comma-free, and every row is well-formed.
pub open spec fn ch_wf(ch: CollectionHistoryV) -> bool {
    &&& forall|i: int| 0 <= i < ch.timestamps.len() ==> label_ok(#[trigger] ch.timestamps[i])
    &&& forall|i: int| 0 <= i < ch.cards.len() ==> agg_wf(#[trigger] ch.cards[i])
    &&& forall|i: int|
        0 <= i < ch.cards.len() ==> (#[trigger] ch.cards[i]).card_history.price_history.len()
            == ch.timestamps.len()
    &&& unique_ids(ch.cards)
    &&& sorted_by_id(ch.cards)
}

impl CollectionHistory {
    /// Wraps already-aggregated rows and a ledger without further checks.
    pub fn from_collection_history(
        card_histories: Vec<CardHistoryAggregate>,
        timestamps: Vec<String>,
    ) -> (r: CollectionHistory)
        ensures
            r@.timestamps == timestamps@.map_values(|s: String| s@),
            r@.cards == card_histories@.map_values(|a: CardHistoryAggregate| a@),
    {
        CollectionHistory { timestamps, card_histories }
    }

    /// The number of tracked cards.
    pub fn size(&self) -> (r: usize)
        ensures
            r == self@.cards.len(),
    {
        self.card_histories.len()
    }

    /// Builds a ledger from plain history rows, computing each card's
    /// cached newest quantity from its observations.
    ///
    /// The ledger invariant `ch_wf` is established exactly when the rows
    /// are well-formed, sorted ascending by unique identifier, aligned with
    /// the ledger length, and the labels are comma-free.
    pub fn from_card_history(timestamps: Vec<String>, card_history: Vec<CardHistory>) -> (r:
        CollectionHistory)
        ensures
            r@.timestamps == timestamps@.map_values(|s: String| s@),
            r@.cards.len() == card_history@.len(),
            forall|i: int|
                0 <= i < card_history@.len() ==> (#[trigger] r@.cards[i]).card_history
                    == card_history@[i]@,
            forall|i: int|
                0 <= i < card_history@.len() ==> (#[trigger] r@.cards[i]).newest_quantity
                    == newest_quantity_of(card_history@[i]@.price_history),
    {
        let ghost histv = card_history@.map_values(|h: CardHistory| h@);
        let mut rows = card_history;
        let mut card_histories: Vec<CardHistoryAggregate> = Vec::new();
        let ghost n = histv.len();
        while rows.len() > 0
            invariant
                histv.len() == n,
                card_histories@.len() + rows@.len() == n,
                forall|i: int|
                    0 <= i < rows@.len() ==> #[trigger] rows@[i]@ == histv[
                        card_histories@.len() + i],
                forall|i: int|
                    0 <= i < card_histories@.len() ==> (#[trigger] card_histories@[i])@.card_history
                        == histv[i],
                forall|i: int|
                    0 <= i < card_histories@.len() ==> (
                    #[trigger] card_histories@[i])@.newest_quantity == newest_quantity_of(
                        histv[i].price_history,
                    ),
            decreases rows@.len(),
        {
            let cardh = rows.remove(0);
            let newest_quantity = newest_recorded_quantity(&cardh.price_history);
            card_histories.push(CardHistoryAggregate { card_history: cardh, newest_quantity });
        }
        let r = CollectionHistory { timestamps, card_histories };
        proof {
            assert(r@.cards.len() == n);
            assert(forall|i: int|
                0 <= i < n ==> (#[trigger] r@.cards[i]) == card_histories@[i]@);
        }
        r
    }
}

/// Scans the observations from newest to oldest and returns the last
/// recorded quantity, or zero when every observation omits it.
fn newest_recorded_quantity(obs: &Vec<PriceHistoryTracker>) -> (r: u32)
    ensures
        r == newest_quantity_of(obs@.map_values(|t: PriceHistoryTracker| t@)),
{
    let ghost obsv = obs@.map_values(|t: PriceHistoryTracker| t@);
    let mut k: usize = obs.len();
    proof {
        assert(obsv.subrange(0, k as int) =~= obsv);
    }
    while k > 0
        invariant
            k <= obs@.len(),
            obsv == obs@.map_values(|t: PriceHistoryTracker| t@),
            newest_quantity_of(obsv) == newest_quantity_of(obsv.subrange(0, k as int)),
        decreases k,
    {
        k = k - 1;
        let cur = &obs[k];
        proof {
            let pre = obsv.subrange(0, k + 1);
            assert(pre.drop_last() =~= obsv.subrange(0, k as int));
            assert(pre.last() == obsv[k as int]);
        }
        match cur.quantity {
            Some(q) => {
                return q;
            },
            None => {},
        }
    }
    proof {
        assert(obsv.subrange(0, 0) =~= Seq::<ObsV>::empty());
    }
    0
}

/// The ghost images of a sequence of snapshot cards.
pub open spec fn card_views(s: Seq<MtgoCard>) -> Seq<MtgoCardV> {
    s.map_values(|c: MtgoCard| c@)
}

/// True when some snapshot card carries this identifier.
pub open spec fn has_card_id(cs: Seq<MtgoCardV>, id: u32) -> bool {
    exists|i: int| 0 <= i < cs.len() && cs[i].id == id
}

/// The snapshot card carrying this identifier (meaningful under unique
/// identifiers).
pub open spec fn card_of(cs: Seq<MtgoCardV>, id: u32) -> MtgoCardV {
    cs[choose|i: int| 0 <= i < cs.len() && cs[i].id == id]
}

/// No two snapshot cards share an identifier.
pub open spec fn unique_card_ids(cs: Seq<MtgoCardV>) -> bool {
    forall|i: int, j: int|
        0 <= i < j < cs.len() ==> (#[trigger] cs[i]).id != (#[trigger] cs[j]).id
}

/// Snapshot cards ordered ascending by identifier.
pub open spec fn cards_sorted_by_id(cs: Seq<MtgoCardV>) -> bool {
    forall|i: int, j: int|
        0 <= i < j < cs.len() ==> (#[trigger] cs[i]).id <= (#[trigger] cs[j]).id
}

/// A sequence with two positions holding the same value counts that value
/// at least twice in its multiset.
proof fn lemma_dup_positions_count<A>(s: Seq<A>, i: int, j: int)
    requires
        0 <= i < j < s.len(),
        s[i] == s[j],
    ensures
        s.to_multiset().count(s[i]) >= 2,
{
    broadcast use vstd::seq_lib::group_to_multiset_ensures;
    broadcast use vstd::multiset::group_multiset_axioms;

    let s0 = s.subrange(0, j);
    let s1 = s.subrange(j, s.len() as int);
    assert(s =~= s0 + s1);
    vstd::seq_lib::lemma_multiset_commutative(s0, s1);
    assert(s0[i] == s[i]);
    assert(s0.contains(s[i]));
    assert(s1[0] == s[j]);
    assert(s1.contains(s[i]));
    assert(s0.to_multiset().count(s[i]) >= 1);
    assert(s1.to_multiset().count(s[i]) >= 1);
    assert(s.to_multiset().count(s[i]) == s0.to_multiset().count(s[i]) + s1.to_multiset().count(
        s[i],
    ));
}

/// Inserting into a sequence inserts into its multiset.
proof fn lemma_insert_to_multiset<A>(s: Seq<A>, p: int, x: A)
    requires
        0 <= p <= s.len(),
    ensures
        s.insert(p, x).to_multiset() =~= s.to_multiset().insert(x),
{
    broadcast use vstd::seq_lib::group_to_multiset_ensures;
    broadcast use vstd::multiset::group_multiset_axioms;

    let s0 = s.subrange(0, p);
    let s1 = s.subrange(p, s.len() as int);
    assert(s =~= s0 + s1);
    assert(s.insert(p, x) =~= s0 + seq![x] + s1);
    vstd::seq_lib::lemma_multiset_commutative(s0, s1);
    vstd::seq_lib::lemma_multiset_commutative(s0 + seq![x], s1);
    vstd::seq_lib::lemma_multiset_commutative(s0, seq![x]);
    assert(seq![x] =~= Seq::<A>::empty().push(x));
    assert(seq![x].to_multiset() =~= Multiset::<A>::empty().insert(x));
}

/// A permutation of a snapshot with unique identifiers keeps the
/// identifiers unique and looks up to the same card for every identifier.
pub(crate) proof fn lemma_card_perm_lookup(a: Seq<MtgoCardV>, b: Seq<MtgoCardV>)
    requires
        a.to_multiset() == b.to_multiset(),
        unique_card_ids(a),
    ensures
        unique_card_ids(b),
        b.len() == a.len(),
        forall|id: u32| has_card_id(a, id) <==> has_card_id(b, id),
        forall|id: u32| has_card_id(a, id) ==> card_of(a, id) == card_of(b, id),
        forall|i: int| 0 <= i < b.len() ==> a.contains(#[trigger] b[i]),
{
    broadcast use vstd::seq_lib::group_to_multiset_ensures;
    broadcast use vstd::multiset::group_multiset_axioms;

    assert(a.no_duplicates()) by {
        assert forall|i: int, j: int|
            0 <= i < a.len() && 0 <= j < a.len() && i != j implies a[i] != a[j] by {
            if i < j {
                assert(a[i].id != a[j].id);
            } else {
                assert(a[j].id != a[i].id);
            }
        }
    }
    a.lemma_multiset_has_no_duplicates();
    assert(a.len() == a.to_multiset().len());
    assert(b.len() == b.to_multiset().len());
    assert forall|i: int| 0 <= i < b.len() implies a.contains(#[trigger] b[i]) by {
        assert(b.contains(b[i]));
        assert(b.to_multiset().count(b[i]) > 0);
        assert(a.to_multiset().count(b[i]) > 0);
    }
    assert forall|i: int, j: int|
        0 <= i < j < b.len() implies (#[trigger] b[i]).id != (#[trigger] b[j]).id by {
        if b[i].id == b[j].id {
            if b[i] == b[j] {
                lemma_dup_positions_count(b, i, j);
                assert(a.to_multiset().count(b[i]) >= 2);
                assert(a.to_multiset().contains(b[i]));
            } else {
                assert(a.contains(b[i])) by {
                    assert(b.contains(b[i]));
                }
                assert(a.contains(b[j])) by {
                    assert(b.contains(b[j]));
                }
                let m1 = choose|m: int| 0 <= m < a.len() && a[m] == b[i];
                let m2 = choose|m: int| 0 <= m < a.len() && a[m] == b[j];
                assert(m1 != m2);
                assert(a[m1].id != a[m2].id);
            }
        }
    }
    assert forall|id: u32| has_card_id(a, id) implies has_card_id(b, id) by {
        let i = choose|i: int| 0 <= i < a.len() && a[i].id == id;
        assert(a.contains(a[i]));
        assert(a.to_multiset().count(a[i]) > 0);
        assert(b.to_multiset().count(a[i]) > 0);
        assert(b.contains(a[i]));
        let k = choose|k: int| 0 <= k < b.len() && b[k] == a[i];
        assert(b[k].id == id);
    }
    assert forall|id: u32| has_card_id(b, id) implies has_card_id(a, id) by {
        let i = choose|i: int| 0 <= i < b.len() && b[i].id == id;
        assert(b.contains(b[i]));
        assert(b.to_multiset().count(b[i]) > 0);
        assert(a.to_multiset().count(b[i]) > 0);
        assert(a.contains(b[i]));
        let k = choose|k: int| 0 <= k < a.len() && a[k] == b[i];
        assert(a[k].id == id);
    }
    assert forall|id: u32| has_card_id(a, id) implies card_of(a, id) == card_of(b, id) by {
        let i = choose|i: int| 0 <= i < a.len() && a[i].id == id;
        let k = choose|k: int| 0 <= k < b.len() && b[k].id == id;
        assert(a[i] == card_of(a, id));
        assert(b[k] == card_of(b, id));
        assert(b.contains(b[k]));
        assert(b.to_multiset().count(b[k]) > 0);
        assert(a.to_multiset().count(b[k]) > 0);
        assert(a.contains(b[k]));
        let m = choose|m: int| 0 <= m < a.len() && a[m] == b[k];
        assert(a[m].id == id);
        assert(m == i);
    }
}

/// Sorts a snapshot ascending by card identifier; the result is a
/// permutation of the input.
pub(crate) fn sort_cards_by_id(cards: Vec<MtgoCard>) -> (r: Vec<MtgoCard>)
    ensures
        card_views(r@).to_multiset() == card_views(cards@).to_multiset(),
        cards_sorted_by_id(card_views(r@)),
{
    broadcast use vstd::seq_lib::group_to_multiset_ensures;
    broadcast use vstd::multiset::group_multiset_axioms;

    let ghost origv = card_views(cards@);
    let mut src = cards;
    let mut r: Vec<MtgoCard> = Vec::new();
    proof {
        assert(card_views(r@) =~= Seq::<MtgoCardV>::empty());
        assert(card_views(r@).to_multiset().add(card_views(src@).to_multiset())
            =~= origv.to_multiset());
    }
    while src.len() > 0
        invariant
            card_views(r@).to_multiset().add(card_views(src@).to_multiset())
                == origv.to_multiset(),
            cards_sorted_by_id(card_views(r@)),
        decreases src@.len(),
    {
        let ghost pre_src = src@;
        let ghost pre_r = r@;
        let c = src.remove(0);
        proof {
            assert(card_views(pre_src).len() > 0);
            assert(card_views(pre_src)[0] == c@);
            assert(card_views(src@) =~= card_views(pre_src).remove(0));
            assert(card_views(pre_src).remove(0).to_multiset() =~= card_views(
                pre_src,
            ).to_multiset().remove(card_views(pre_src)[0]));
            assert(card_views(src@).to_multiset() =~= card_views(pre_src).to_multiset().remove(
                c@,
            ));
            assert(card_views(pre_src).contains(card_views(pre_src)[0]));
            assert(card_views(pre_src).to_multiset().count(c@) > 0);
        }
        let mut pos: usize = 0;
        while pos < r.len() && r[pos].id <= c.id
            invariant
                pos <= r@.len(),
                forall|k: int| 0 <= k < pos ==> (#[trigger] card_views(r@)[k]).id <= c@.id,
                r@ == pre_r,
            decreases r@.len() - pos,
        {
            proof {
                assert(card_views(r@)[pos as int] == r@[pos as int]@);
            }
            pos = pos + 1;
        }
        proof {
            if pos < r@.len() {
                assert(r@[pos as int]@.id > c@.id);
                assert(card_views(r@)[pos as int].id > c@.id);
            }
        }
        r.insert(pos, c);
        proof {
            assert(card_views(r@) =~= card_views(pre_r).insert(pos as int, c@));
            lemma_insert_to_multiset(card_views(pre_r), pos as int, c@);
            assert(card_views(r@).to_multiset() =~= card_views(pre_r).to_multiset().insert(c@));
            assert(card_views(r@).to_multiset().add(card_views(src@).to_multiset()) =~= origv.to_multiset());
            let rv = card_views(r@);
            let prev = card_views(pre_r);
            assert forall|x: int, y: int|
                0 <= x < y < rv.len() implies (#[trigger] rv[x]).id <= (#[trigger] rv[y]).id by {
                if y < pos {
                    assert(rv[x] == prev[x] && rv[y] == prev[y]);
                } else if y == pos {
                    assert(rv[y] == c@);
                    assert(rv[x] == prev[x]);
                    assert(prev[x].id <= c@.id);
                } else {
                    assert(rv[y] == prev[y - 1]);
                    if x < pos {
                        assert(rv[x] == prev[x]);
                        if pos < prev.len() {
                            if x < pos && pos <= y - 1 {
                                assert(prev[x].id <= c@.id);
                                assert(prev[pos as int].id <= prev[y - 1].id);
                                assert(c@.id <= prev[pos as int].id);
                            }
                        }
                        assert(prev[x].id <= prev[y - 1].id || x == y - 1);
                    } else if x == pos {
                        assert(rv[x] == c@);
                        assert(c@.id <= prev[y - 1].id);
                    } else {
                        assert(rv[x] == prev[x - 1]);
                        assert(prev[x - 1].id <= prev[y - 1].id);
                    }
                }
            }
        }
    }
    proof {
        assert(card_views(src@) =~= Seq::<MtgoCardV>::empty());
        assert(card_views(r@).to_multiset() =~= origv.to_multiset());
    }
    r
}

/// The ghost images of a sequence of tracked-card aggregates.
pub open spec fn agg_views(s: Seq<CardHistoryAggregate>) -> Seq<AggV> {
    s.map_values(|a: CardHistoryAggregate| a@)
}

/// The observation appended for a matched card: quantity omitted exactly
/// when unchanged relative to the cached newest quantity, both prices
/// recorded as given.
pub open spec fn merged_obs(prev_newest: u32, c: MtgoCardV) -> ObsV {
    ObsV {
        quantity: if c.quantity == prev_newest {
            None
        } else {
            Some(c.quantity)
        },
        goatbots_price: Some(c.goatbots_price),
        scryfall_price: c.scryfall_price,
    }
}

/// A tracked card extended with the observation of its matching snapshot
/// card; the cached newest quantity becomes the snapshot quantity.
pub open spec fn extended_matched(a: AggV, c: MtgoCardV) -> AggV {
    AggV {
        card_history: CardHistoryV {
            id: a.card_history.id,
            quantity: a.card_history.quantity,
            name: a.card_history.name,
            set: a.card_history.set,
            rarity: a.card_history.rarity,
            foil: a.card_history.foil,
            price_history: a.card_history.price_history.push(merged_obs(a.newest_quantity, c)),
        },
        newest_quantity: c.quantity,
    }
}

/// A tracked card extended after disappearing from the snapshot: explicit
/// zero quantity, no prices, cached newest quantity reset to zero.
pub open spec fn extended_gone(a: AggV) -> AggV {
    AggV {
        card_history: CardHistoryV {
            id: a.card_history.id,
            quantity: a.card_history.quantity,
            name: a.card_history.name,
            set: a.card_history.set,
            rarity: a.card_history.rarity,
            foil: a.card_history.foil,
            price_history: a.card_history.price_history.push(gone_obs()),
        },
        newest_quantity: 0,
    }
}

/// The aggregate a brand-new card starts with: one fully absent placeholder
/// per pre-existing ledger timestamp, then its real observation.
pub open spec fn backfilled_agg(c: MtgoCardV, prior: nat) -> AggV {
    AggV {
        card_history: CardHistoryV {
            id: c.id,
            quantity: dec_of(c.quantity as nat),
            name: c.name,
            set: c.set,
            rarity: c.rarity,
            foil: c.foil,
            price_history: Seq::new(prior, |i: int| blank_obs()).push(snapshot_obs(c)),
        },
        newest_quantity: c.quantity,
    }
}

/// Appending an observation makes it the newest recorded quantity when it
/// records one, and keeps the previous newest quantity otherwise.
proof fn lemma_newest_push(obs: Seq<ObsV>, o: ObsV)
    ensures
        newest_quantity_of(obs.push(o)) == match o.quantity {
            Some(q) => q,
            None => newest_quantity_of(obs),
        },
{
    assert(obs.push(o).drop_last() =~= obs);
    assert(obs.push(o).last() == o);
}

/// Every position of a unique-identifier aggregate sequence is what lookup
/// by its own identifier returns.
proof fn lemma_agg_lookup_at(s: Seq<AggV>, a: int)
    requires
        unique_ids(s),
        0 <= a < s.len(),
    ensures
        has_id(s, s[a].card_history.id),
        agg_of(s, s[a].card_history.id) == s[a],
{
    let id = s[a].card_history.id;
    assert(0 <= a < s.len() && s[a].card_history.id == id);
    let i = choose|i: int| 0 <= i < s.len() && s[i].card_history.id == id;
    assert(i == a);
}

/// Every position of a unique-identifier snapshot is what lookup by its
/// own identifier returns.
proof fn lemma_card_lookup_at(s: Seq<MtgoCardV>, a: int)
    requires
        unique_card_ids(s),
        0 <= a < s.len(),
    ensures
        has_card_id(s, s[a].id),
        card_of(s, s[a].id) == s[a],
{
    let id = s[a].id;
    assert(0 <= a < s.len() && s[a].id == id);
    let i = choose|i: int| 0 <= i < s.len() && s[i].id == id;
    assert(i == a);
}

/// Pushing an aggregate with a fresh identifier preserves lookups for every
/// other identifier and makes the new aggregate the lookup for its own.
proof fn lemma_agg_push(s: Seq<AggV>, x: AggV)
    requires
        !has_id(s, x.card_history.id),
        unique_ids(s),
    ensures
        unique_ids(s.push(x)),
        has_id(s.push(x), x.card_history.id),
        agg_of(s.push(x), x.card_history.id) == x,
        forall|id: u32|
            #[trigger] has_id(s.push(x), id) <==> has_id(s, id) || id == x.card_history.id,
        forall|id: u32|
            id != x.card_history.id && has_id(s, id) ==> #[trigger] agg_of(s.push(x), id)
                == agg_of(s, id),
{
    let t = s.push(x);
    let n = s.len() as int;
    assert(t[n] == x);
    assert(forall|i: int| 0 <= i < n ==> t[i] == s[i]);
    assert forall|i: int, j: int|
        0 <= i < j < t.len() implies (#[trigger] t[i]).card_history.id != (
    #[trigger] t[j]).card_history.id by {
        if j == n {
            if t[i].card_history.id == x.card_history.id {
                assert(0 <= i < s.len() && s[i].card_history.id == x.card_history.id);
                assert(has_id(s, x.card_history.id));
            }
        }
    }
    assert(has_id(t, x.card_history.id)) by {
        assert(t[n].card_history.id == x.card_history.id);
    }
    assert(agg_of(t, x.card_history.id) == x) by {
        let i = choose|i: int|
            0 <= i < t.len() && t[i].card_history.id == x.card_history.id;
        if i < n {
            assert(s[i].card_history.id == x.card_history.id);
            assert(has_id(s, x.card_history.id));
        }
        assert(i == n);
    }
    assert forall|id: u32| #[trigger] has_id(t, id) implies has_id(s, id) || id
        == x.card_history.id by {
        let i = choose|i: int| 0 <= i < t.len() && t[i].card_history.id == id;
        if i < n {
            assert(s[i].card_history.id == id);
        }
    }
    assert forall|id: u32| has_id(s, id) || id == x.card_history.id implies #[trigger] has_id(
        t,
        id,
    ) by {
        if has_id(s, id) {
            let i = choose|i: int| 0 <= i < s.len() && s[i].card_history.id == id;
            assert(t[i].card_history.id == id);
        } else {
            assert(t[n].card_history.id == id);
        }
    }
    assert forall|id: u32|
        id != x.card_history.id && has_id(s, id) implies #[trigger] agg_of(t, id) == agg_of(
        s,
        id,
    ) by {
        let i = choose|i: int| 0 <= i < t.len() && t[i].card_history.id == id;
        let k = choose|k: int| 0 <= k < s.len() && s[k].card_history.id == id;
        assert(t[i].card_history.id == id);
        assert(i != n);
        assert(t[i] == s[i]);
        assert(i == k);
    }
}

/// A vector of `n` fully absent placeholder observations.
fn blank_prefix(n: usize) -> (v: Vec<PriceHistoryTracker>)
    ensures
        v@.map_values(|t: PriceHistoryTracker| t@) == Seq::new(n as nat, |i: int| blank_obs()),
{
    let mut v: Vec<PriceHistoryTracker> = Vec::new();
    let mut k: usize = 0;
    while k < n
        invariant
            k <= n,
            v@.map_values(|t: PriceHistoryTracker| t@) == Seq::new(
                k as nat,
                |i: int| blank_obs(),
            ),
        decreases n - k,
    {
        let ghost pre = v@;
        let tr = PriceHistoryTracker { quantity: None, goatbots_price: None, scryfall_price: None };
        proof {
            assert(tr@ == blank_obs());
        }
        v.push(tr);
        k = k + 1;
        proof {
            assert(v@ =~= pre.push(tr));
            assert(v@.map_values(|t: PriceHistoryTracker| t@) =~= pre.map_values(
                |t: PriceHistoryTracker| t@,
            ).push(tr@));
            assert(v@.map_values(|t: PriceHistoryTracker| t@) =~= Seq::new(
                k as nat,
                |i: int| blank_obs(),
            ));
        }
    }
    proof {
        assert(v@.map_values(|t: PriceHistoryTracker| t@) =~= Seq::new(
            n as nat,
            |i: int| blank_obs(),
        ));
    }
    v
}

/// Extends a tracked card absent from the snapshot: explicit zero
/// quantity, no prices, cache reset.
fn extend_gone_agg(agg: CardHistoryAggregate) -> (r: CardHistoryAggregate)
    ensures
        r@ == extended_gone(agg@),
{
    let ghost pre = agg@.card_history.price_history;
    let mut agg = agg;
    let tr = PriceHistoryTracker { quantity: Some(0), goatbots_price: None, scryfall_price: None };
    agg.card_history.price_history.push(tr);
    agg.newest_quantity = 0;
    proof {
        assert(tr@ == gone_obs());
        assert(agg@.card_history.price_history =~= pre.push(gone_obs()));
    }
    agg
}

/// Extends a tracked card matched by a snapshot card: quantity omitted
/// exactly when unchanged, both prices recorded, cache updated.
fn extend_matched_agg(agg: CardHistoryAggregate, c: MtgoCard) -> (r: CardHistoryAggregate)
    ensures
        r@ == extended_matched(agg@, c@),
{
    let ghost pre = agg@.card_history.price_history;
    let ghost prev_newest = agg@.newest_quantity;
    let mut agg = agg;
    let quantity = if c.quantity == agg.newest_quantity {
        None
    } else {
        Some(c.quantity)
    };
    let tr = PriceHistoryTracker {
        quantity,
        goatbots_price: Some(c.goatbots_price),
        scryfall_price: c.scryfall_price,
    };
    proof {
        assert(tr@ == merged_obs(prev_newest, c@));
    }
    agg.card_history.price_history.push(tr);
    agg.newest_quantity = c.quantity;
    proof {
        assert(agg@.card_history.price_history =~= pre.push(merged_obs(prev_newest, c@)));
    }
    agg
}

/// Builds the aggregate for a brand-new card: `prior` placeholder
/// observations, then its real observation.
fn backfill_agg(c: MtgoCard, prior: usize) -> (r: CardHistoryAggregate)
    ensures
        r@ == backfilled_agg(c@, prior as nat),
{
    let mut ph = blank_prefix(prior);
    let ghost blanks = ph@.map_values(|t: PriceHistoryTracker| t@);
    let tr = PriceHistoryTracker {
        quantity: Some(c.quantity),
        goatbots_price: Some(c.goatbots_price),
        scryfall_price: c.scryfall_price,
    };
    proof {
        assert(tr@ == snapshot_obs(c@));
    }
    ph.push(tr);
    let mut qchars: Vec<char> = Vec::new();
    push_dec_u32(c.quantity, &mut qchars);
    let quantity = chars_to_string(&qchars);
    let newest_quantity = c.quantity;
    let r = CardHistoryAggregate {
        card_history: CardHistory {
            id: c.id,
            quantity,
            name: c.name,
            set: c.set,
            rarity: c.rarity,
            foil: c.foil,
            price_history: ph,
        },
        newest_quantity,
    };
    proof {
        assert(r@.card_history.price_history =~= blanks.push(snapshot_obs(c@)));
    }
    r
}

/// A well-formed tracked card stays well-formed after the zero-quantity
/// extension, with one more observation.
proof fn lemma_extended_gone_wf(a: AggV)
    requires
        agg_wf(a),
    ensures
        agg_wf(extended_gone(a)),
        extended_gone(a).card_history.price_history.len()
            == a.card_history.price_history.len() + 1,
        extended_gone(a).card_history.id == a.card_history.id,
{
    lemma_newest_push(a.card_history.price_history, gone_obs());
    let ext = extended_gone(a).card_history.price_history;
    assert(forall|k: int| 0 <= k < ext.len() ==> obs_wf(#[trigger] ext[k]));
}

/// A well-formed tracked card stays well-formed after the matched
/// extension, with one more observation.
proof fn lemma_extended_matched_wf(a: AggV, c: MtgoCardV)
    requires
        agg_wf(a),
        card_wf(c),
    ensures
        agg_wf(extended_matched(a, c)),
        extended_matched(a, c).card_history.price_history.len()
            == a.card_history.price_history.len() + 1,
        extended_matched(a, c).card_history.id == a.card_history.id,
{
    lemma_newest_push(a.card_history.price_history, merged_obs(a.newest_quantity, c));
    let ext = extended_matched(a, c).card_history.price_history;
    assert(forall|k: int| 0 <= k < ext.len() ==> obs_wf(#[trigger] ext[k]));
}

/// The back-filled aggregate of a well-formed snapshot card is well-formed
/// and one observation longer than the prior ledger.
proof fn lemma_backfilled_wf(c: MtgoCardV, prior: nat)
    requires
        card_wf(c),
    ensures
        agg_wf(backfilled_agg(c, prior)),
        backfilled_agg(c, prior).card_history.price_history.len() == prior + 1,
        backfilled_agg(c, prior).card_history.id == c.id,
{
    let blanks = Seq::new(prior, |i: int| blank_obs());
    lemma_newest_push(blanks, snapshot_obs(c));
    lemma_dec_of_canon(c.quantity as nat);
    let ext = backfilled_agg(c, prior).card_history.price_history;
    assert(forall|k: int| 0 <= k < ext.len() ==> obs_wf(#[trigger] ext[k]));
}

/// In a sorted unique-identifier snapshot, an identifier above everything
/// before position `j` and below the entry at `j` occurs nowhere.
proof fn lemma_absent_from_cards(newsv: Seq<MtgoCardV>, j: int, bound: u32)
    requires
        cards_sorted_by_id(newsv),
        unique_card_ids(newsv),
        0 <= j <= newsv.len(),
        forall|k: int| 0 <= k < j ==> (#[trigger] newsv[k]).id < bound,
        j < newsv.len() ==> bound < newsv[j].id,
    ensures
        !has_card_id(newsv, bound),
{
    if has_card_id(newsv, bound) {
        let k = choose|k: int| 0 <= k < newsv.len() && newsv[k].id == bound;
        if k >= j {
            assert(j < newsv.len());
            if k > j {
                assert(newsv[j].id <= newsv[k].id);
            }
        }
    }
}

/// In a sorted unique-identifier tracked set, an identifier above
/// everything before position `i` and below the entry at `i` occurs
/// nowhere.
proof fn lemma_absent_from_aggs(oldsv: Seq<AggV>, i: int, bound: u32)
    requires
        sorted_by_id(oldsv),
        unique_ids(oldsv),
        0 <= i <= oldsv.len(),
        forall|k: int| 0 <= k < i ==> (#[trigger] oldsv[k]).card_history.id < bound,
        i < oldsv.len() ==> bound < oldsv[i].card_history.id,
    ensures
        !has_id(oldsv, bound),
{
    if has_id(oldsv, bound) {
        let k = choose|k: int| 0 <= k < oldsv.len() && oldsv[k].card_history.id == bound;
        if k >= i {
            assert(i < oldsv.len());
            if k > i {
                assert(oldsv[i].card_history.id <= oldsv[k].card_history.id);
            }
        }
    }
}

/// The specification of the sorted three-way merge: walks both sorted
/// sequences, extending tracked cards and back-filling new ones.
pub open spec fn merge_seq(oldsv: Seq<AggV>, newsv: Seq<MtgoCardV>, prior: nat) -> Seq<AggV>
    decreases oldsv.len() + newsv.len(),
{
    if oldsv.len() == 0 && newsv.len() == 0 {
        Seq::empty()
    } else if newsv.len() == 0 || (oldsv.len() > 0 && oldsv[0].card_history.id < newsv[0].id) {
        seq![extended_gone(oldsv[0])] + merge_seq(oldsv.drop_first(), newsv, prior)
    } else if oldsv.len() > 0 && oldsv[0].card_history.id == newsv[0].id {
        seq![extended_matched(oldsv[0], newsv[0])] + merge_seq(
            oldsv.drop_first(),
            newsv.drop_first(),
            prior,
        )
    } else {
        seq![backfilled_agg(newsv[0], prior)] + merge_seq(oldsv, newsv.drop_first(), prior)
    }
}

/// Lookup through a sequence extended at the front by an aggregate whose
/// identifier occurs nowhere else in it.
proof fn lemma_agg_cons(x: AggV, s: Seq<AggV>)
    requires
        !has_id(s, x.card_history.id),
    ensures
        has_id(seq![x] + s, x.card_history.id),
        agg_of(seq![x] + s, x.card_history.id) == x,
        forall|id: u32|
            id != x.card_history.id ==> (#[trigger] has_id(seq![x] + s, id) <==> has_id(s, id)),
        forall|id: u32|
            id != x.card_history.id && has_id(s, id) && unique_ids(s) ==> #[trigger] agg_of(
                seq![x] + s,
                id,
            ) == agg_of(s, id),
{
    let t = seq![x] + s;
    assert(t[0] == x);
    assert(forall|k: int| 0 <= k < s.len() ==> t[k + 1] == s[k]);
    assert(has_id(t, x.card_history.id));
    assert(agg_of(t, x.card_history.id) == x) by {
        let i = choose|i: int|
            0 <= i < t.len() && t[i].card_history.id == x.card_history.id;
        if i > 0 {
            assert(s[i - 1] == t[i]);
            assert(has_id(s, x.card_history.id));
        }
    }
    assert forall|id: u32|
        id != x.card_history.id implies (#[trigger] has_id(t, id) <==> has_id(s, id)) by {
        if has_id(t, id) {
            let i = choose|i: int| 0 <= i < t.len() && t[i].card_history.id == id;
            assert(i > 0);
            assert(s[i - 1].card_history.id == id);
        }
        if has_id(s, id) {
            let i = choose|i: int| 0 <= i < s.len() && s[i].card_history.id == id;
            assert(t[i + 1].card_history.id == id);
        }
    }
    assert forall|id: u32|
        id != x.card_history.id && has_id(s, id) && unique_ids(s) implies #[trigger] agg_of(
            t,
            id,
        ) == agg_of(s, id) by {
        let i = choose|i: int| 0 <= i < t.len() && t[i].card_history.id == id;
        let k = choose|k: int| 0 <= k < s.len() && s[k].card_history.id == id;
        assert(t[i].card_history.id == id);
        assert(i > 0);
        assert(t[i] == s[i - 1]);
        assert(i - 1 == k);
    }
}

/// Lookup through a snapshot extended at the front by a card whose
/// identifier occurs nowhere else in it.
proof fn lemma_card_cons(x: MtgoCardV, s: Seq<MtgoCardV>)
    requires
        !has_card_id(s, x.id),
    ensures
        has_card_id(seq![x] + s, x.id),
        card_of(seq![x] + s, x.id) == x,
        forall|id: u32|
            id != x.id ==> (#[trigger] has_card_id(seq![x] + s, id) <==> has_card_id(s, id)),
        forall|id: u32|
            id != x.id && has_card_id(s, id) && unique_card_ids(s) ==> #[trigger] card_of(
                seq![x] + s,
                id,
            ) == card_of(s, id),
{
    let t = seq![x] + s;
    assert(t[0] == x);
    assert(forall|k: int| 0 <= k < s.len() ==> t[k + 1] == s[k]);
    assert(has_card_id(t, x.id));
    assert(card_of(t, x.id) == x) by {
        let i = choose|i: int| 0 <= i < t.len() && t[i].id == x.id;
        if i > 0 {
            assert(s[i - 1] == t[i]);
            assert(has_card_id(s, x.id));
        }
    }
    assert forall|id: u32|
        id != x.id implies (#[trigger] has_card_id(t, id) <==> has_card_id(s, id)) by {
        if has_card_id(t, id) {
            let i = choose|i: int| 0 <= i < t.len() && t[i].id == id;
            assert(i > 0);
            assert(s[i - 1].id == id);
        }
        if has_card_id(s, id) {
            let i = choose|i: int| 0 <= i < s.len() && s[i].id == id;
            assert(t[i + 1].id == id);
        }
    }
    assert forall|id: u32|
        id != x.id && has_card_id(s, id) && unique_card_ids(s) implies #[trigger] card_of(
            t,
            id,
        ) == card_of(s, id) by {
        let i = choose|i: int| 0 <= i < t.len() && t[i].id == id;
        let k = choose|k: int| 0 <= k < s.len() && s[k].id == id;
        assert(t[i].id == id);
        assert(i > 0);
        assert(t[i] == s[i - 1]);
        assert(i - 1 == k);
    }
}

/// Dropping the first element of a sorted unique sequence keeps it sorted
/// and unique, and every identifier left is strictly above the head's.
proof fn lemma_aggs_tail(s: Seq<AggV>)
    requires
        s.len() > 0,
        sorted_by_id(s),
        unique_ids(s),
    ensures
        sorted_by_id(s.drop_first()),
        unique_ids(s.drop_first()),
        !has_id(s.drop_first(), s[0].card_history.id),
        forall|k: int|
            0 <= k < s.drop_first().len() ==> s[0].card_history.id < (#[trigger] s.drop_first()[k]).card_history.id,
{
    let t = s.drop_first();
    assert(forall|k: int| 0 <= k < t.len() ==> t[k] == s[k + 1]);
    assert forall|k: int|
        0 <= k < t.len() implies s[0].card_history.id < (#[trigger] t[k]).card_history.id by {
        assert(s[0].card_history.id <= s[k + 1].card_history.id);
        assert(s[0].card_history.id != s[k + 1].card_history.id);
    }
    if has_id(t, s[0].card_history.id) {
        let k = choose|k: int| 0 <= k < t.len() && t[k].card_history.id == s[0].card_history.id;
        assert(s[0].card_history.id < t[k].card_history.id);
    }
}

/// Dropping the first element of a sorted unique snapshot keeps it sorted
/// and unique, and every identifier left is strictly above the head's.
proof fn lemma_cards_tail(s: Seq<MtgoCardV>)
    requires
        s.len() > 0,
        cards_sorted_by_id(s),
        unique_card_ids(s),
    ensures
        cards_sorted_by_id(s.drop_first()),
        unique_card_ids(s.drop_first()),
        !has_card_id(s.drop_first(), s[0].id),
        forall|k: int|
            0 <= k < s.drop_first().len() ==> s[0].id < (#[trigger] s.drop_first()[k]).id,
{
    let t = s.drop_first();
    assert(forall|k: int| 0 <= k < t.len() ==> t[k] == s[k + 1]);
    assert forall|k: int| 0 <= k < t.len() implies s[0].id < (#[trigger] t[k]).id by {
        assert(s[0].id <= s[k + 1].id);
        assert(s[0].id != s[k + 1].id);
    }
    if has_card_id(t, s[0].id) {
        let k = choose|k: int| 0 <= k < t.len() && t[k].id == s[0].id;
        assert(s[0].id < t[k].id);
    }
}

/// The merged sequence is sorted with unique identifiers; its identifier
/// set is the union of both sides' identifier sets, and every element's
/// identifier comes from one of the sides.
/// The four identifier properties of a merged sequence, bundled so the
/// induction can pass them through one name.
pub open spec fn merge_ids_ok(oldsv: Seq<AggV>, newsv: Seq<MtgoCardV>, m: Seq<AggV>) -> bool {
    &&& unique_ids(m)
    &&& sorted_by_id(m)
    &&& forall|id: u32| #[trigger] has_id(m, id) <==> has_id(oldsv, id) || has_card_id(newsv, id)
    &&& forall|k: int|
        0 <= k < m.len() ==> has_id(oldsv, (#[trigger] m[k]).card_history.id) || has_card_id(
            newsv,
            m[k].card_history.id,
        )
}

/// Extending a merged remainder at the front by an element whose identifier
/// lies strictly below everything in it preserves the identifier
/// properties, with the head's identifier joining the set.
proof fn lemma_merge_ids_cons(
    oldsv: Seq<AggV>,
    newsv: Seq<MtgoCardV>,
    rest: Seq<AggV>,
    x: AggV,
    oldsv2: Seq<AggV>,
    newsv2: Seq<MtgoCardV>,
)
    requires
        merge_ids_ok(oldsv2, newsv2, rest),
        forall|k: int| 0 <= k < rest.len() ==> x.card_history.id < (#[trigger] rest[k]).card_history.id,
        // the head's identifier is in the full set but in neither tail set
        has_id(oldsv, x.card_history.id) || has_card_id(newsv, x.card_history.id),
        !has_id(oldsv2, x.card_history.id),
        !has_card_id(newsv2, x.card_history.id),
        // tail identifier sets relate to full sets by removing the head id
        forall|id: u32|
            id != x.card_history.id ==> (#[trigger] has_id(oldsv, id) <==> has_id(oldsv2, id)),
        forall|id: u32|
            id != x.card_history.id ==> (#[trigger] has_card_id(newsv, id) <==> has_card_id(
                newsv2,
                id,
            )),
    ensures
        merge_ids_ok(oldsv, newsv, seq![x] + rest),
{
    let m = seq![x] + rest;
    assert(m[0] == x);
    assert(forall|k: int| 0 <= k < rest.len() ==> m[k + 1] == rest[k]);
    assert(!has_id(rest, x.card_history.id)) by {
        if has_id(rest, x.card_history.id) {
            let k = choose|k: int|
                0 <= k < rest.len() && rest[k].card_history.id == x.card_history.id;
            assert(x.card_history.id < rest[k].card_history.id);
        }
    }
    lemma_agg_cons(x, rest);
    assert(sorted_by_id(m)) by {
        assert forall|p: int, q: int|
            0 <= p < q < m.len() implies (#[trigger] m[p]).card_history.id <= (
        #[trigger] m[q]).card_history.id by {
            if p == 0 {
                assert(m[q] == rest[q - 1]);
            } else {
                assert(m[p] == rest[p - 1] && m[q] == rest[q - 1]);
            }
        }
    }
    assert(unique_ids(m)) by {
        assert forall|p: int, q: int|
            0 <= p < q < m.len() implies (#[trigger] m[p]).card_history.id != (
        #[trigger] m[q]).card_history.id by {
            if p == 0 {
                assert(m[q] == rest[q - 1]);
            } else {
                assert(m[p] == rest[p - 1] && m[q] == rest[q - 1]);
            }
        }
    }
    assert forall|id: u32| #[trigger] has_id(m, id) <==> has_id(oldsv, id) || has_card_id(
        newsv,
        id,
    ) by {
        if id != x.card_history.id {
            assert(has_id(m, id) <==> has_id(rest, id));
            assert(has_id(rest, id) <==> has_id(oldsv2, id) || has_card_id(newsv2, id));
        }
    }
    assert forall|k: int| 0 <= k < m.len() implies has_id(
        oldsv,
        (#[trigger] m[k]).card_history.id,
    ) || has_card_id(newsv, m[k].card_history.id) by {
        if k > 0 {
            assert(m[k] == rest[k - 1]);
            let rid = rest[k - 1].card_history.id;
            assert(has_id(oldsv2, rid) || has_card_id(newsv2, rid));
            assert(rid != x.card_history.id);
        }
    }
}

/// Removing the head of a sorted unique tracked set removes exactly its
/// identifier from the identifier set.
proof fn lemma_aggs_tail_ids(s: Seq<AggV>)
    requires
        s.len() > 0,
        sorted_by_id(s),
        unique_ids(s),
    ensures
        forall|id: u32|
            id != s[0].card_history.id ==> (#[trigger] has_id(s, id) <==> has_id(
                s.drop_first(),
                id,
            )),
{
    let t = s.drop_first();
    assert(forall|k: int| 0 <= k < t.len() ==> t[k] == s[k + 1]);
    assert forall|id: u32|
        id != s[0].card_history.id implies (#[trigger] has_id(s, id) <==> has_id(t, id)) by {
        if has_id(s, id) {
            let k = choose|k: int| 0 <= k < s.len() && s[k].card_history.id == id;
            assert(k > 0);
            assert(t[k - 1].card_history.id == id);
        }
        if has_id(t, id) {
            let k = choose|k: int| 0 <= k < t.len() && t[k].card_history.id == id;
            assert(s[k + 1].card_history.id == id);
        }
    }
}

/// Removing the head of a sorted unique snapshot removes exactly its
/// identifier from the identifier set.
proof fn lemma_cards_tail_ids(s: Seq<MtgoCardV>)
    requires
        s.len() > 0,
        cards_sorted_by_id(s),
        unique_card_ids(s),
    ensures
        forall|id: u32|
            id != s[0].id ==> (#[trigger] has_card_id(s, id) <==> has_card_id(
                s.drop_first(),
                id,
            )),
{
    let t = s.drop_first();
    assert(forall|k: int| 0 <= k < t.len() ==> t[k] == s[k + 1]);
    assert forall|id: u32|
        id != s[0].id implies (#[trigger] has_card_id(s, id) <==> has_card_id(t, id)) by {
        if has_card_id(s, id) {
            let k = choose|k: int| 0 <= k < s.len() && s[k].id == id;
            assert(k > 0);
            assert(t[k - 1].id == id);
        }
        if has_card_id(t, id) {
            let k = choose|k: int| 0 <= k < t.len() && t[k].id == id;
            assert(s[k + 1].id == id);
        }
    }
}

/// The merged sequence is sorted with unique identifiers; its identifier
/// set is the union of both sides' identifier sets, and every element's
/// identifier comes from one of the sides.
proof fn lemma_merge_seq_ids(oldsv: Seq<AggV>, newsv: Seq<MtgoCardV>, prior: nat)
    requires
        sorted_by_id(oldsv),
        unique_ids(oldsv),
        cards_sorted_by_id(newsv),
        unique_card_ids(newsv),
    ensures
        merge_ids_ok(oldsv, newsv, merge_seq(oldsv, newsv, prior)),
    decreases oldsv.len() + newsv.len(),
{
    let m = merge_seq(oldsv, newsv, prior);
    if oldsv.len() == 0 && newsv.len() == 0 {
        assert(m =~= Seq::<AggV>::empty());
    } else if newsv.len() == 0 || (oldsv.len() > 0 && oldsv[0].card_history.id < newsv[0].id) {
        let x = extended_gone(oldsv[0]);
        let hid = oldsv[0].card_history.id;
        let rest = merge_seq(oldsv.drop_first(), newsv, prior);
        lemma_aggs_tail(oldsv);
        lemma_aggs_tail_ids(oldsv);
        lemma_merge_seq_ids(oldsv.drop_first(), newsv, prior);
        lemma_head_below_rest_aggs(oldsv, newsv, rest, hid);
        assert(!has_card_id(newsv, hid)) by {
            if has_card_id(newsv, hid) {
                let k = choose|k: int| 0 <= k < newsv.len() && newsv[k].id == hid;
                assert(newsv[0].id <= newsv[k].id);
            }
        }
        assert(has_id(oldsv, hid)) by {
            assert(0 <= 0 < oldsv.len() && oldsv[0].card_history.id == hid);
        }
        lemma_merge_ids_cons(oldsv, newsv, rest, x, oldsv.drop_first(), newsv);
        assert(m == seq![x] + rest);
    } else if oldsv.len() > 0 && oldsv[0].card_history.id == newsv[0].id {
        let x = extended_matched(oldsv[0], newsv[0]);
        let hid = oldsv[0].card_history.id;
        let rest = merge_seq(oldsv.drop_first(), newsv.drop_first(), prior);
        lemma_aggs_tail(oldsv);
        lemma_cards_tail(newsv);
        lemma_aggs_tail_ids(oldsv);
        lemma_cards_tail_ids(newsv);
        lemma_merge_seq_ids(oldsv.drop_first(), newsv.drop_first(), prior);
        lemma_head_below_rest_aggs_matched(oldsv, newsv, rest, hid);
        assert(has_id(oldsv, hid)) by {
            assert(0 <= 0 < oldsv.len() && oldsv[0].card_history.id == hid);
        }
        lemma_merge_ids_cons(oldsv, newsv, rest, x, oldsv.drop_first(), newsv.drop_first());
        assert(m == seq![x] + rest);
    } else {
        let x = backfilled_agg(newsv[0], prior);
        let hid = newsv[0].id;
        let rest = merge_seq(oldsv, newsv.drop_first(), prior);
        lemma_cards_tail(newsv);
        lemma_cards_tail_ids(newsv);
        lemma_merge_seq_ids(oldsv, newsv.drop_first(), prior);
        lemma_head_below_rest_aggs_fresh(oldsv, newsv, rest, hid);
        assert(!has_id(oldsv, hid)) by {
            if has_id(oldsv, hid) {
                let k = choose|k: int| 0 <= k < oldsv.len() && oldsv[k].card_history.id == hid;
                assert(oldsv[0].card_history.id <= oldsv[k].card_history.id);
            }
        }
        assert(has_card_id(newsv, hid)) by {
            assert(0 <= 0 < newsv.len() && newsv[0].id == hid);
        }
        lemma_merge_ids_cons(oldsv, newsv, rest, x, oldsv, newsv.drop_first());
        assert(m == seq![x] + rest);
    }
}

/// In the first merge case every identifier of the remainder lies strictly
/// above the consumed head's identifier.
proof fn lemma_head_below_rest_aggs(
    oldsv: Seq<AggV>,
    newsv: Seq<MtgoCardV>,
    rest: Seq<AggV>,
    hid: u32,
)
    requires
        sorted_by_id(oldsv),
        unique_ids(oldsv),
        cards_sorted_by_id(newsv),
        unique_card_ids(newsv),
        oldsv.len() > 0,
        hid == oldsv[0].card_history.id,
        newsv.len() == 0 || hid < newsv[0].id,
        forall|k: int|
            0 <= k < rest.len() ==> has_id(
                oldsv.drop_first(),
                (#[trigger] rest[k]).card_history.id,
            ) || has_card_id(newsv, rest[k].card_history.id),
    ensures
        forall|k: int| 0 <= k < rest.len() ==> hid < (#[trigger] rest[k]).card_history.id,
{
    lemma_aggs_tail(oldsv);
    assert forall|k: int| 0 <= k < rest.len() implies hid < (
    #[trigger] rest[k]).card_history.id by {
        let rid = rest[k].card_history.id;
        if has_id(oldsv.drop_first(), rid) {
            let a = choose|a: int|
                0 <= a < oldsv.drop_first().len() && oldsv.drop_first()[a].card_history.id
                    == rid;
            assert(hid < oldsv.drop_first()[a].card_history.id);
        } else {
            let a = choose|a: int| 0 <= a < newsv.len() && newsv[a].id == rid;
            assert(newsv[0].id <= newsv[a].id);
        }
    }
}

/// In the matched merge case every identifier of the remainder lies
/// strictly above the consumed heads' shared identifier.
proof fn lemma_head_below_rest_aggs_matched(
    oldsv: Seq<AggV>,
    newsv: Seq<MtgoCardV>,
    rest: Seq<AggV>,
    hid: u32,
)
    requires
        sorted_by_id(oldsv),
        unique_ids(oldsv),
        cards_sorted_by_id(newsv),
        unique_card_ids(newsv),
        oldsv.len() > 0,
        newsv.len() > 0,
        hid == oldsv[0].card_history.id,
        hid == newsv[0].id,
        forall|k: int|
            0 <= k < rest.len() ==> has_id(
                oldsv.drop_first(),
                (#[trigger] rest[k]).card_history.id,
            ) || has_card_id(newsv.drop_first(), rest[k].card_history.id),
    ensures
        forall|k: int| 0 <= k < rest.len() ==> hid < (#[trigger] rest[k]).card_history.id,
{
    lemma_aggs_tail(oldsv);
    lemma_cards_tail(newsv);
    assert forall|k: int| 0 <= k < rest.len() implies hid < (
    #[trigger] rest[k]).card_history.id by {
        let rid = rest[k].card_history.id;
        if has_id(oldsv.drop_first(), rid) {
            let a = choose|a: int|
                0 <= a < oldsv.drop_first().len() && oldsv.drop_first()[a].card_history.id
                    == rid;
            assert(hid < oldsv.drop_first()[a].card_history.id);
        } else {
            let a = choose|a: int|
                0 <= a < newsv.drop_first().len() && newsv.drop_first()[a].id == rid;
            assert(hid < newsv.drop_first()[a].id);
        }
    }
}

/// In the brand-new merge case every identifier of the remainder lies
/// strictly above the consumed head's identifier.
proof fn lemma_head_below_rest_aggs_fresh(
    oldsv: Seq<AggV>,
    newsv: Seq<MtgoCardV>,
    rest: Seq<AggV>,
    hid: u32,
)
    requires
        sorted_by_id(oldsv),
        unique_ids(oldsv),
        cards_sorted_by_id(newsv),
        unique_card_ids(newsv),
        newsv.len() > 0,
        hid == newsv[0].id,
        oldsv.len() == 0 || hid < oldsv[0].card_history.id,
        forall|k: int|
            0 <= k < rest.len() ==> has_id(oldsv, (#[trigger] rest[k]).card_history.id)
                || has_card_id(newsv.drop_first(), rest[k].card_history.id),
    ensures
        forall|k: int| 0 <= k < rest.len() ==> hid < (#[trigger] rest[k]).card_history.id,
{
    lemma_cards_tail(newsv);
    assert forall|k: int| 0 <= k < rest.len() implies hid < (
    #[trigger] rest[k]).card_history.id by {
        let rid = rest[k].card_history.id;
        if has_id(oldsv, rid) {
            let a = choose|a: int| 0 <= a < oldsv.len() && oldsv[a].card_history.id == rid;
            assert(oldsv[0].card_history.id <= oldsv[a].card_history.id);
        } else {
            let a = choose|a: int|
                0 <= a < newsv.drop_first().len() && newsv.drop_first()[a].id == rid;
            assert(hid < newsv.drop_first()[a].id);
        }
    }
}

/// Looking up any identifier other than the head's in a sorted unique
/// tracked set is the same as looking it up in the tail.
proof fn lemma_aggs_tail_lookup(s: Seq<AggV>)
    requires
        s.len() > 0,
        sorted_by_id(s),
        unique_ids(s),
    ensures
        forall|id: u32|
            id != s[0].card_history.id && has_id(s.drop_first(), id) ==> #[trigger] agg_of(
                s,
                id,
            ) == agg_of(s.drop_first(), id),
{
    lemma_aggs_tail(s);
    assert(seq![s[0]] + s.drop_first() =~= s);
    lemma_agg_cons(s[0], s.drop_first());
}

/// Looking up any identifier other than the head's in a sorted unique
/// snapshot is the same as looking it up in the tail.
proof fn lemma_cards_tail_lookup(s: Seq<MtgoCardV>)
    requires
        s.len() > 0,
        cards_sorted_by_id(s),
        unique_card_ids(s),
    ensures
        forall|id: u32|
            id != s[0].id && has_card_id(s.drop_first(), id) ==> #[trigger] card_of(s, id)
                == card_of(s.drop_first(), id),
{
    lemma_cards_tail(s);
    assert(seq![s[0]] + s.drop_first() =~= s);
    lemma_card_cons(s[0], s.drop_first());
}

/// What the merge records for every identifier: matched cards extend with
/// the delta-encoded observation, disappeared cards with the explicit zero
/// observation, and brand-new cards enter back-filled.
#[verifier::rlimit(100)]
proof fn lemma_merge_seq_content(oldsv: Seq<AggV>, newsv: Seq<MtgoCardV>, prior: nat)
    requires
        sorted_by_id(oldsv),
        unique_ids(oldsv),
        cards_sorted_by_id(newsv),
        unique_card_ids(newsv),
    ensures
        forall|id: u32|
            has_id(oldsv, id) && has_card_id(newsv, id) ==> #[trigger] agg_of(
                merge_seq(oldsv, newsv, prior),
                id,
            ) == extended_matched(agg_of(oldsv, id), card_of(newsv, id)),
        forall|id: u32|
            has_id(oldsv, id) && !has_card_id(newsv, id) ==> #[trigger] agg_of(
                merge_seq(oldsv, newsv, prior),
                id,
            ) == extended_gone(agg_of(oldsv, id)),
        forall|id: u32|
            !has_id(oldsv, id) && has_card_id(newsv, id) ==> #[trigger] agg_of(
                merge_seq(oldsv, newsv, prior),
                id,
            ) == backfilled_agg(card_of(newsv, id), prior),
    decreases oldsv.len() + newsv.len(),
{
    let m = merge_seq(oldsv, newsv, prior);
    if oldsv.len() == 0 && newsv.len() == 0 {
    } else if newsv.len() == 0 || (oldsv.len() > 0 && oldsv[0].card_history.id < newsv[0].id) {
        let x = extended_gone(oldsv[0]);
        let hid = oldsv[0].card_history.id;
        let oldsv2 = oldsv.drop_first();
        let rest = merge_seq(oldsv2, newsv, prior);
        lemma_aggs_tail(oldsv);
        lemma_aggs_tail_ids(oldsv);
        lemma_aggs_tail_lookup(oldsv);
        lemma_merge_seq_ids(oldsv2, newsv, prior);
        lemma_merge_seq_content(oldsv2, newsv, prior);
        lemma_head_below_rest_aggs(oldsv, newsv, rest, hid);
        assert(!has_id(rest, hid)) by {
            if has_id(rest, hid) {
                let k = choose|k: int|
                    0 <= k < rest.len() && rest[k].card_history.id == hid;
                assert(hid < rest[k].card_history.id);
            }
        }
        lemma_agg_cons(x, rest);
        assert(m == seq![x] + rest);
        assert(!has_card_id(newsv, hid)) by {
            if has_card_id(newsv, hid) {
                let k = choose|k: int| 0 <= k < newsv.len() && newsv[k].id == hid;
                assert(newsv[0].id <= newsv[k].id);
            }
        }
        lemma_agg_lookup_at(oldsv, 0);
        assert forall|id: u32|
            has_id(oldsv, id) && has_card_id(newsv, id) implies #[trigger] agg_of(m, id)
            == extended_matched(agg_of(oldsv, id), card_of(newsv, id)) by {
            assert(id != hid);
            assert(has_id(oldsv2, id));
            assert(has_id(rest, id));
            assert(agg_of(m, id) == agg_of(rest, id));
        }
        assert forall|id: u32|
            has_id(oldsv, id) && !has_card_id(newsv, id) implies #[trigger] agg_of(m, id)
            == extended_gone(agg_of(oldsv, id)) by {
            if id == hid {
                assert(agg_of(m, hid) == x);
                assert(agg_of(oldsv, hid) == oldsv[0]);
            } else {
                assert(has_id(oldsv2, id));
                assert(has_id(rest, id));
                assert(agg_of(m, id) == agg_of(rest, id));
            }
        }
        assert forall|id: u32|
            !has_id(oldsv, id) && has_card_id(newsv, id) implies #[trigger] agg_of(m, id)
            == backfilled_agg(card_of(newsv, id), prior) by {
            assert(id != hid);
            assert(!has_id(oldsv2, id));
            assert(has_id(rest, id));
            assert(agg_of(m, id) == agg_of(rest, id));
        }
    } else if oldsv.len() > 0 && oldsv[0].card_history.id == newsv[0].id {
        let x = extended_matched(oldsv[0], newsv[0]);
        let hid = oldsv[0].card_history.id;
        let oldsv2 = oldsv.drop_first();
        let newsv2 = newsv.drop_first();
        let rest = merge_seq(oldsv2, newsv2, prior);
        lemma_aggs_tail(oldsv);
        lemma_cards_tail(newsv);
        lemma_aggs_tail_ids(oldsv);
        lemma_cards_tail_ids(newsv);
        lemma_aggs_tail_lookup(oldsv);
        lemma_cards_tail_lookup(newsv);
        lemma_merge_seq_ids(oldsv2, newsv2, prior);
        lemma_merge_seq_content(oldsv2, newsv2, prior);
        lemma_head_below_rest_aggs_matched(oldsv, newsv, rest, hid);
        assert(!has_id(rest, hid)) by {
            if has_id(rest, hid) {
                let k = choose|k: int|
                    0 <= k < rest.len() && rest[k].card_history.id == hid;
                assert(hid < rest[k].card_history.id);
            }
        }
        lemma_agg_cons(x, rest);
        assert(m == seq![x] + rest);
        lemma_agg_lookup_at(oldsv, 0);
        lemma_card_lookup_at(newsv, 0);
        assert forall|id: u32|
            has_id(oldsv, id) && has_card_id(newsv, id) implies #[trigger] agg_of(m, id)
            == extended_matched(agg_of(oldsv, id), card_of(newsv, id)) by {
            if id == hid {
                assert(agg_of(m, hid) == x);
                assert(agg_of(oldsv, hid) == oldsv[0]);
                assert(card_of(newsv, hid) == newsv[0]);
            } else {
                assert(has_id(oldsv2, id) && has_card_id(newsv2, id));
                assert(has_id(rest, id));
                assert(agg_of(m, id) == agg_of(rest, id));
            }
        }
        assert forall|id: u32|
            has_id(oldsv, id) && !has_card_id(newsv, id) implies #[trigger] agg_of(m, id)
            == extended_gone(agg_of(oldsv, id)) by {
            assert(id != hid);
            assert(has_id(oldsv2, id) && !has_card_id(newsv2, id));
            assert(has_id(rest, id));
            assert(agg_of(m, id) == agg_of(rest, id));
        }
        assert forall|id: u32|
            !has_id(oldsv, id) && has_card_id(newsv, id) implies #[trigger] agg_of(m, id)
            == backfilled_agg(card_of(newsv, id), prior) by {
            assert(id != hid);
            assert(!has_id(oldsv2, id) && has_card_id(newsv2, id));
            assert(has_id(rest, id));
            assert(agg_of(m, id) == agg_of(rest, id));
        }
    } else {
        let x = backfilled_agg(newsv[0], prior);
        let hid = newsv[0].id;
        let newsv2 = newsv.drop_first();
        let rest = merge_seq(oldsv, newsv2, prior);
        lemma_cards_tail(newsv);
        lemma_cards_tail_ids(newsv);
        lemma_cards_tail_lookup(newsv);
        lemma_merge_seq_ids(oldsv, newsv2, prior);
        lemma_merge_seq_content(oldsv, newsv2, prior);
        lemma_head_below_rest_aggs_fresh(oldsv, newsv, rest, hid);
        assert(!has_id(rest, hid)) by {
            if has_id(rest, hid) {
                let k = choose|k: int|
                    0 <= k < rest.len() && rest[k].card_history.id == hid;
                assert(hid < rest[k].card_history.id);
            }
        }
        lemma_agg_cons(x, rest);
        assert(m == seq![x] + rest);
        lemma_card_lookup_at(newsv, 0);
        assert(!has_id(oldsv, hid)) by {
            if has_id(oldsv, hid) {
                let k = choose|k: int| 0 <= k < oldsv.len() && oldsv[k].card_history.id == hid;
                assert(oldsv[0].card_history.id <= oldsv[k].card_history.id);
            }
        }
        assert forall|id: u32|
            has_id(oldsv, id) && has_card_id(newsv, id) implies #[trigger] agg_of(m, id)
            == extended_matched(agg_of(oldsv, id), card_of(newsv, id)) by {
            assert(id != hid);
            assert(has_card_id(newsv2, id));
            assert(has_id(rest, id));
            assert(agg_of(m, id) == agg_of(rest, id));
        }
        assert forall|id: u32|
            has_id(oldsv, id) && !has_card_id(newsv, id) implies #[trigger] agg_of(m, id)
            == extended_gone(agg_of(oldsv, id)) by {
            assert(id != hid);
            assert(!has_card_id(newsv2, id));
            assert(has_id(rest, id));
            assert(agg_of(m, id) == agg_of(rest, id));
        }
        assert forall|id: u32|
            !has_id(oldsv, id) && has_card_id(newsv, id) implies #[trigger] agg_of(m, id)
            == backfilled_agg(card_of(newsv, id), prior) by {
            if id == hid {
                assert(agg_of(m, hid) == x);
                assert(card_of(newsv, hid) == newsv[0]);
            } else {
                assert(has_card_id(newsv2, id));
                assert(has_id(rest, id));
                assert(agg_of(m, id) == agg_of(rest, id));
            }
        }
    }
}

/// Every merged aggregate is well-formed and exactly one observation
/// longer than the prior ledger.
proof fn lemma_merge_seq_wf(oldsv: Seq<AggV>, newsv: Seq<MtgoCardV>, prior: nat)
    requires
        forall|k: int| 0 <= k < oldsv.len() ==> agg_wf(#[trigger] oldsv[k]),
        forall|k: int|
            0 <= k < oldsv.len() ==> (#[trigger] oldsv[k]).card_history.price_history.len()
                == prior,
        forall|k: int| 0 <= k < newsv.len() ==> card_wf(#[trigger] newsv[k]),
    ensures
        forall|k: int|
            0 <= k < merge_seq(oldsv, newsv, prior).len() ==> agg_wf(
                #[trigger] merge_seq(oldsv, newsv, prior)[k],
            ),
        forall|k: int|
            0 <= k < merge_seq(oldsv, newsv, prior).len() ==> (#[trigger] merge_seq(
                oldsv,
                newsv,
                prior,
            )[k]).card_history.price_history.len() == prior + 1,
    decreases oldsv.len() + newsv.len(),
{
    let m = merge_seq(oldsv, newsv, prior);
    if oldsv.len() == 0 && newsv.len() == 0 {
    } else if newsv.len() == 0 || (oldsv.len() > 0 && oldsv[0].card_history.id < newsv[0].id) {
        let x = extended_gone(oldsv[0]);
        let rest = merge_seq(oldsv.drop_first(), newsv, prior);
        assert(forall|k: int|
            0 <= k < oldsv.drop_first().len() ==> oldsv.drop_first()[k] == oldsv[k + 1]);
        lemma_merge_seq_wf(oldsv.drop_first(), newsv, prior);
        lemma_extended_gone_wf(oldsv[0]);
        assert(m == seq![x] + rest);
        assert(m[0] == x);
        assert(forall|k: int| 0 <= k < rest.len() ==> m[k + 1] == rest[k]);
        assert forall|k: int| 0 <= k < m.len() implies agg_wf(#[trigger] m[k]) && (
        #[trigger] m[k]).card_history.price_history.len() == prior + 1 by {
            if k > 0 {
                assert(m[k] == rest[k - 1]);
            }
        }
    } else if oldsv.len() > 0 && oldsv[0].card_history.id == newsv[0].id {
        let x = extended_matched(oldsv[0], newsv[0]);
        let rest = merge_seq(oldsv.drop_first(), newsv.drop_first(), prior);
        assert(forall|k: int|
            0 <= k < oldsv.drop_first().len() ==> oldsv.drop_first()[k] == oldsv[k + 1]);
        assert(forall|k: int|
            0 <= k < newsv.drop_first().len() ==> newsv.drop_first()[k] == newsv[k + 1]);
        lemma_merge_seq_wf(oldsv.drop_first(), newsv.drop_first(), prior);
        lemma_extended_matched_wf(oldsv[0], newsv[0]);
        assert(m == seq![x] + rest);
        assert(m[0] == x);
        assert(forall|k: int| 0 <= k < rest.len() ==> m[k + 1] == rest[k]);
        assert forall|k: int| 0 <= k < m.len() implies agg_wf(#[trigger] m[k]) && (
        #[trigger] m[k]).card_history.price_history.len() == prior + 1 by {
            if k > 0 {
                assert(m[k] == rest[k - 1]);
            }
        }
    } else {
        let x = backfilled_agg(newsv[0], prior);
        let rest = merge_seq(oldsv, newsv.drop_first(), prior);
        assert(forall|k: int|
            0 <= k < newsv.drop_first().len() ==> newsv.drop_first()[k] == newsv[k + 1]);
        lemma_merge_seq_wf(oldsv, newsv.drop_first(), prior);
        lemma_backfilled_wf(newsv[0], prior);
        assert(m == seq![x] + rest);
        assert(m[0] == x);
        assert(forall|k: int| 0 <= k < rest.len() ==> m[k + 1] == rest[k]);
        assert forall|k: int| 0 <= k < m.len() implies agg_wf(#[trigger] m[k]) && (
        #[trigger] m[k]).card_history.price_history.len() == prior + 1 by {
            if k > 0 {
                assert(m[k] == rest[k - 1]);
            }
        }
    }
}

impl CollectionHistory {
    /// Folds one full snapshot into the ledger under a new timestamp label
    /// by a sorted three-way merge.
    ///
    /// Tracked cards matched by the snapshot receive one observation whose
    /// quantity is omitted exactly when unchanged; tracked cards absent
    /// from the snapshot receive an explicit zero-quantity observation;
    /// brand-new cards are back-filled with one placeholder per
    /// pre-existing timestamp and added. The next state is built in full
    /// and swapped in, and afterwards every tracked card's observation
    /// count again equals the ledger length, which grew by exactly one.
    #[verifier::rlimit(100)]
    pub fn add_new_card_data(&mut self, timestamp: String, cards: Vec<MtgoCard>)
        requires
            ch_wf(old(self)@),
            unique_card_ids(card_views(cards@)),
            forall|i: int| 0 <= i < cards@.len() ==> card_wf(#[trigger] card_views(cards@)[i]),
            label_ok(timestamp@),
        ensures
            final(self)@.timestamps == old(self)@.timestamps.push(timestamp@),
            final(self)@.timestamps.len() == old(self)@.timestamps.len() + 1,
            ch_wf(final(self)@),
            forall|id: u32|
                #[trigger] has_id(final(self)@.cards, id) <==> has_id(old(self)@.cards, id)
                    || has_card_id(card_views(cards@), id),
            forall|id: u32|
                has_id(old(self)@.cards, id) && has_card_id(card_views(cards@), id)
                    ==> #[trigger] agg_of(final(self)@.cards, id) == extended_matched(
                    agg_of(old(self)@.cards, id),
                    card_of(card_views(cards@), id),
                ),
            forall|id: u32|
                has_id(old(self)@.cards, id) && !has_card_id(card_views(cards@), id)
                    ==> #[trigger] agg_of(final(self)@.cards, id) == extended_gone(
                    agg_of(old(self)@.cards, id),
                ),
            forall|id: u32|
                !has_id(old(self)@.cards, id) && has_card_id(card_views(cards@), id)
                    ==> #[trigger] agg_of(final(self)@.cards, id) == backfilled_agg(
                    card_of(card_views(cards@), id),
                    old(self)@.timestamps.len(),
                ),
    {
        let ghost origv = card_views(cards@);
        let ghost oldsv = old(self)@.cards;
        let ghost prior = old(self)@.timestamps.len();
        let sorted = sort_cards_by_id(cards);
        let ghost newsv = card_views(sorted@);
        proof {
            lemma_card_perm_lookup(origv, newsv);
        }
        let mut new_list = sorted;
        let mut old_list: Vec<CardHistoryAggregate> = Vec::new();
        core::mem::swap(&mut old_list, &mut self.card_histories);
        let mut res: Vec<CardHistoryAggregate> = Vec::new();
        let ghost mut i: int = 0;
        let ghost mut j: int = 0;
        let ghost n_old: int = oldsv.len() as int;
        let ghost n_new: int = newsv.len() as int;
        proof {
            assert(agg_views(old_list@) =~= oldsv.subrange(0, n_old));
            assert(card_views(new_list@) =~= newsv.subrange(0, n_new));
            assert(agg_views(res@) =~= Seq::<AggV>::empty());
            assert(merge_seq(oldsv, newsv, prior) =~= agg_views(res@) + merge_seq(
                oldsv.subrange(0, n_old),
                newsv.subrange(0, n_new),
                prior,
            )) by {
                assert(oldsv.subrange(0, n_old) =~= oldsv);
                assert(newsv.subrange(0, n_new) =~= newsv);
            }
        }
        while old_list.len() > 0 || new_list.len() > 0
            invariant
                0 <= i <= n_old,
                0 <= j <= n_new,
                n_old == oldsv.len(),
                n_new == newsv.len(),
                agg_views(old_list@) == oldsv.subrange(i, n_old),
                card_views(new_list@) == newsv.subrange(j, n_new),
                merge_seq(oldsv, newsv, prior) == agg_views(res@) + merge_seq(
                    oldsv.subrange(i, n_old),
                    newsv.subrange(j, n_new),
                    prior,
                ),
                self.timestamps@ == old(self).timestamps@,
                self.timestamps@.map_values(|s: String| s@).len() == prior,
            decreases old_list@.len() + new_list@.len(),
        {
            let ghost resv = agg_views(res@);
            let ghost sub_old = oldsv.subrange(i, n_old);
            let ghost sub_new = newsv.subrange(j, n_new);
            proof {
                if old_list@.len() > 0 {
                    assert(agg_views(old_list@)[0] == oldsv[i]);
                    assert(old_list@[0]@ == oldsv[i]);
                    assert(sub_old[0] == oldsv[i]);
                }
                if new_list@.len() > 0 {
                    assert(card_views(new_list@)[0] == newsv[j]);
                    assert(new_list@[0]@ == newsv[j]);
                    assert(sub_new[0] == newsv[j]);
                }
            }
            if new_list.len() == 0 || (old_list.len() > 0 && old_list[0].card_history.id
                < new_list[0].id) {
                // A tracked card is absent from the new snapshot.
                let ghost pre_old = old_list@;
                let agg = old_list.remove(0);
                proof {
                    assert(agg@ == oldsv[i]);
                    assert(old_list@ == pre_old.remove(0));
                    assert forall|k: int| 0 <= k < old_list@.len() implies agg_views(
                        old_list@,
                    )[k] == oldsv.subrange(i + 1, n_old)[k] by {
                        assert(old_list@[k] == pre_old[k + 1]);
                        assert(agg_views(pre_old)[k + 1] == oldsv.subrange(i, n_old)[k + 1]);
                    }
                    assert(agg_views(old_list@) =~= oldsv.subrange(i + 1, n_old));
                }
                let ext = extend_gone_agg(agg);
                res.push(ext);
                proof {
                    assert(agg_views(res@) =~= resv.push(extended_gone(oldsv[i])));
                    assert(merge_seq(sub_old, sub_new, prior) == seq![
                        extended_gone(sub_old[0]),
                    ] + merge_seq(sub_old.drop_first(), sub_new, prior));
                    assert(sub_old.drop_first() =~= oldsv.subrange(i + 1, n_old));
                    assert(resv.push(extended_gone(oldsv[i])) =~= resv + seq![
                        extended_gone(oldsv[i]),
                    ]);
                    assert(agg_views(res@) + merge_seq(
                        oldsv.subrange(i + 1, n_old),
                        sub_new,
                        prior,
                    ) =~= resv + merge_seq(sub_old, sub_new, prior));
                    i = i + 1;
                }
            } else if old_list.len() > 0 && new_list.len() > 0 && old_list[0].card_history.id
                == new_list[0].id {
                // The card is tracked and present in the new snapshot.
                let ghost pre_old = old_list@;
                let ghost pre_new = new_list@;
                let agg = old_list.remove(0);
                let c = new_list.remove(0);
                proof {
                    assert(agg@ == oldsv[i]);
                    assert(c@ == newsv[j]);
                    assert(old_list@ == pre_old.remove(0));
                    assert(new_list@ == pre_new.remove(0));
                    assert forall|k: int| 0 <= k < old_list@.len() implies agg_views(
                        old_list@,
                    )[k] == oldsv.subrange(i + 1, n_old)[k] by {
                        assert(old_list@[k] == pre_old[k + 1]);
                        assert(agg_views(pre_old)[k + 1] == oldsv.subrange(i, n_old)[k + 1]);
                    }
                    assert(agg_views(old_list@) =~= oldsv.subrange(i + 1, n_old));
                    assert forall|k: int| 0 <= k < new_list@.len() implies card_views(
                        new_list@,
                    )[k] == newsv.subrange(j + 1, n_new)[k] by {
                        assert(new_list@[k] == pre_new[k + 1]);
                        assert(card_views(pre_new)[k + 1] == newsv.subrange(j, n_new)[k + 1]);
                    }
                    assert(card_views(new_list@) =~= newsv.subrange(j + 1, n_new));
                }
                let ext = extend_matched_agg(agg, c);
                res.push(ext);
                proof {
                    assert(agg_views(res@) =~= resv.push(extended_matched(oldsv[i], newsv[j])));
                    assert(merge_seq(sub_old, sub_new, prior) == seq![
                        extended_matched(sub_old[0], sub_new[0]),
                    ] + merge_seq(sub_old.drop_first(), sub_new.drop_first(), prior));
                    assert(sub_old.drop_first() =~= oldsv.subrange(i + 1, n_old));
                    assert(sub_new.drop_first() =~= newsv.subrange(j + 1, n_new));
                    assert(resv.push(extended_matched(oldsv[i], newsv[j])) =~= resv + seq![
                        extended_matched(oldsv[i], newsv[j]),
                    ]);
                    assert(agg_views(res@) + merge_seq(
                        oldsv.subrange(i + 1, n_old),
                        newsv.subrange(j + 1, n_new),
                        prior,
                    ) =~= resv + merge_seq(sub_old, sub_new, prior));
                    i = i + 1;
                    j = j + 1;
                }
            } else {
                // A brand-new card, never tracked before.
                let ghost pre_new = new_list@;
                let c = new_list.remove(0);
                proof {
                    assert(c@ == newsv[j]);
                    assert(new_list@ == pre_new.remove(0));
                    assert forall|k: int| 0 <= k < new_list@.len() implies card_views(
                        new_list@,
                    )[k] == newsv.subrange(j + 1, n_new)[k] by {
                        assert(new_list@[k] == pre_new[k + 1]);
                        assert(card_views(pre_new)[k + 1] == newsv.subrange(j, n_new)[k + 1]);
                    }
                    assert(card_views(new_list@) =~= newsv.subrange(j + 1, n_new));
                }
                let prior_len = self.timestamps.len();
                proof {
                    assert(self.timestamps@ == old(self).timestamps@);
                }
                let ext = backfill_agg(c, prior_len);
                res.push(ext);
                proof {
                    assert(prior_len as nat == prior);
                    assert(agg_views(res@) =~= resv.push(backfilled_agg(newsv[j], prior)));
                    assert(sub_old.len() == 0 || sub_new[0].id < sub_old[0].card_history.id);
                    assert(merge_seq(sub_old, sub_new, prior) == seq![
                        backfilled_agg(sub_new[0], prior),
                    ] + merge_seq(sub_old, sub_new.drop_first(), prior));
                    assert(sub_new.drop_first() =~= newsv.subrange(j + 1, n_new));
                    assert(resv.push(backfilled_agg(newsv[j], prior)) =~= resv + seq![
                        backfilled_agg(newsv[j], prior),
                    ]);
                    assert(agg_views(res@) + merge_seq(
                        sub_old,
                        newsv.subrange(j + 1, n_new),
                        prior,
                    ) =~= resv + merge_seq(sub_old, sub_new, prior));
                    j = j + 1;
                }
            }
        }
        proof {
            assert(oldsv.subrange(i, n_old) =~= Seq::<AggV>::empty()) by {
                assert(agg_views(old_list@).len() == 0);
            }
            assert(newsv.subrange(j, n_new) =~= Seq::<MtgoCardV>::empty()) by {
                assert(card_views(new_list@).len() == 0);
            }
            assert(merge_seq(
                oldsv.subrange(i, n_old),
                newsv.subrange(j, n_new),
                prior,
            ) =~= Seq::<AggV>::empty());
            assert(agg_views(res@) =~= merge_seq(oldsv, newsv, prior));
            assert(forall|k: int| 0 <= k < newsv.len() ==> card_wf(#[trigger] newsv[k])) by {
                assert forall|k: int| 0 <= k < newsv.len() implies card_wf(
                    #[trigger] newsv[k],
                ) by {
                    assert(origv.contains(newsv[k]));
                    let mm = choose|mm: int| 0 <= mm < origv.len() && origv[mm] == newsv[k];
                    assert(card_wf(origv[mm]));
                }
            }
            lemma_merge_seq_ids(oldsv, newsv, prior);
            lemma_merge_seq_content(oldsv, newsv, prior);
            lemma_merge_seq_wf(oldsv, newsv, prior);
        }
        self.card_histories = res;
        self.timestamps.push(timestamp);
        proof {
            let resv = agg_views(self.card_histories@);
            let mv = merge_seq(oldsv, newsv, prior);
            assert(self@.cards == resv);
            assert(resv == mv);
            assert(self@.timestamps =~= old(self)@.timestamps.push(timestamp@));
            assert forall|id: u32| #[trigger] has_id(resv, id) <==> has_id(oldsv, id)
                || has_card_id(origv, id) by {
                assert(has_id(mv, id) <==> has_id(oldsv, id) || has_card_id(newsv, id));
            }
            assert forall|id: u32|
                has_id(oldsv, id) && has_card_id(origv, id) implies #[trigger] agg_of(resv, id)
                == extended_matched(agg_of(oldsv, id), card_of(origv, id)) by {
                assert(has_card_id(newsv, id));
                assert(card_of(origv, id) == card_of(newsv, id));
                assert(agg_of(mv, id) == extended_matched(agg_of(oldsv, id), card_of(newsv, id)));
            }
            assert forall|id: u32|
                has_id(oldsv, id) && !has_card_id(origv, id) implies #[trigger] agg_of(resv, id)
                == extended_gone(agg_of(oldsv, id)) by {
                assert(!has_card_id(newsv, id));
                assert(agg_of(mv, id) == extended_gone(agg_of(oldsv, id)));
            }
            assert forall|id: u32|
                !has_id(oldsv, id) && has_card_id(origv, id) implies #[trigger] agg_of(resv, id)
                == backfilled_agg(card_of(origv, id), prior) by {
                assert(has_card_id(newsv, id));
                assert(card_of(origv, id) == card_of(newsv, id));
                assert(agg_of(mv, id) == backfilled_agg(card_of(newsv, id), prior));
            }
            assert(ch_wf(self@)) by {
                assert(forall|k: int|
                    0 <= k < self@.timestamps.len() ==> label_ok(
                        #[trigger] self@.timestamps[k],
                    ));
                assert(self@.timestamps.len() == prior + 1);
                assert(forall|k: int| 0 <= k < mv.len() ==> agg_wf(#[trigger] mv[k]));
            }
        }
    }
}

/// Decides in executable code whether a snapshot may be merged: unique
/// identifiers and well-formed text fields on every card. A snapshot that
/// fails this test must not be handed to `add_new_card_data`.
pub fn snapshot_ready(cards: &Vec<MtgoCard>) -> (r: bool)
    ensures
        r == (unique_card_ids(card_views(cards@)) && forall|i: int|
            0 <= i < cards@.len() ==> card_wf(#[trigger] card_views(cards@)[i])),
{
    let ghost cv = card_views(cards@);
    let n = cards.len();
    let mut i: usize = 0;
    while i < n
        invariant
            i <= n == cards@.len(),
            cv == card_views(cards@),
            forall|a: int, b: int|
                0 <= a < b < cards@.len() && b < i ==> (#[trigger] cv[a]).id != (
                #[trigger] cv[b]).id,
            forall|a: int| 0 <= a < i ==> card_wf(#[trigger] cv[a]),
        decreases n - i,
    {
        if !card_wf_check(&cards[i]) {
            proof {
                assert(!card_wf(cv[i as int]));
            }
            return false;
        }
        let mut j: usize = 0;
        while j < i
            invariant
                j <= i < n == cards@.len(),
                cv == card_views(cards@),
                forall|a: int| 0 <= a < j ==> (#[trigger] cv[a]).id != cv[i as int].id,
            decreases i - j,
        {
            if cards[j].id == cards[i].id {
                proof {
                    assert(cv[j as int].id == cv[i as int].id);
                }
                return false;
            }
            j = j + 1;
        }
        i = i + 1;
    }
    proof {
        if !unique_card_ids(cv) {
            let (a, b) = choose|a: int, b: int|
                0 <= a < b < cv.len() && (#[trigger] cv[a]).id == (#[trigger] cv[b]).id;
            assert(cv[a].id != cv[b].id);
        }
    }
    true
}

/// Decides `card_wf` in executable code.
fn card_wf_check(c: &MtgoCard) -> (r: bool)
    ensures
        r == card_wf(c@),
{
    let nc = crate::text::str_to_chars(c.name.as_str());
    if !crate::text::check_name(&nc) {
        return false;
    }
    let sc = crate::text::str_to_chars(c.set.as_str());
    if !crate::text::check_label(&sc) {
        proof {
            assert(!set_ok(c@.set));
        }
        return false;
    }
    let gc = crate::text::str_to_chars(c.goatbots_price.as_str());
    let gn = gc.len();
    if !crate::text::check_price_range(&gc, 0, gn) {
        proof {
            assert(gc@.subrange(0, gn as int) =~= c@.goatbots_price);
        }
        return false;
    }
    proof {
        assert(gc@.subrange(0, gn as int) =~= c@.goatbots_price);
    }
    match &c.scryfall_price {
        Some(p) => {
            let pc = crate::text::str_to_chars(p.as_str());
            let pn = pc.len();
            let ok = crate::text::check_price_range(&pc, 0, pn);
            proof {
                assert(pc@.subrange(0, pn as int) =~= p@);
            }
            ok
        },
        None => true,
    }
}

} // verus!

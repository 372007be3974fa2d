//! Canonical per-card records and the raw entry types fed into collection
//! fusion: the rarity enumeration, the raw inventory entry (`XmlCard`), the
//! metadata feed record (`GoatBotsCard`), the price catalog record
//! (`ScryfallCard`) and the fused `MtgoCard`.

use vstd::prelude::*;

use crate::text::{name_ok, price_ok, set_ok};

verus! {

/// Card rarity: a closed enumeration with a fallback variant for
/// unrecognized source text.
#[derive(Clone, Copy, Debug, PartialEq, Eq, Structural)]
pub enum Rarity {
    Common,
    Uncommon,
    Rare,
    Mythic,
    /// Conservative fallback for source text that matches no known rarity.
    Unknown,
}

/// The display text of a rarity, as written by the row codec.
pub open spec fn rarity_text(r: Rarity) -> Seq<char> {
    match r {
        Rarity::Common => seq!['C', 'o', 'm', 'm', 'o', 'n'],
        Rarity::Uncommon => seq!['U', 'n', 'c', 'o', 'm', 'm', 'o', 'n'],
        Rarity::Rare => seq!['R', 'a', 'r', 'e'],
        Rarity::Mythic => seq!['M', 'y', 't', 'h', 'i', 'c'],
        Rarity::Unknown => seq!['U', 'n', 'k', 'n', 'o', 'w', 'n'],
    }
}

/// The rarity denoted by free-form source text: one of the four known
/// display names maps to its variant, everything else to the fallback.
pub open spec fn rarity_of_text(s: Seq<char>) -> Rarity {
    if s == rarity_text(Rarity::Common) {
        Rarity::Common
    } else if s == rarity_text(Rarity::Uncommon) {
        Rarity::Uncommon
    } else if s == rarity_text(Rarity::Rare) {
        Rarity::Rare
    } else if s == rarity_text(Rarity::Mythic) {
        Rarity::Mythic
    } else {
        Rarity::Unknown
    }
}

/// Mapping source text to a rarity and rendering it back never leaves the
/// four known names, so the two are mutually inverse on the enumeration.
pub proof fn lemma_rarity_round_trip(r: Rarity)
    ensures
        rarity_of_text(rarity_text(r)) == r,
{
}

impl Rarity {
    /// Appends the display text of `self` to `out`.
    pub fn push_text(self, out: &mut Vec<char>)
        ensures
            final(out)@ == old(out)@ + rarity_text(self),
    {
        match self {
            Rarity::Common => {
                out.push('C');
                out.push('o');
                out.push('m');
                out.push('m');
                out.push('o');
                out.push('n');
            },
            Rarity::Uncommon => {
                out.push('U');
                out.push('n');
                out.push('c');
                out.push('o');
                out.push('m');
                out.push('m');
                out.push('o');
                out.push('n');
            },
            Rarity::Rare => {
                out.push('R');
                out.push('a');
                out.push('r');
                out.push('e');
            },
            Rarity::Mythic => {
                out.push('M');
                out.push('y');
                out.push('t');
                out.push('h');
                out.push('i');
                out.push('c');
            },
            Rarity::Unknown => {
                out.push('U');
                out.push('n');
                out.push('k');
                out.push('n');
                out.push('o');
                out.push('w');
                out.push('n');
            },
        }
        proof {
            assert(out@ =~= old(out)@ + rarity_text(self));
        }
    }

    /// The display text of `self` as a vector of characters.
    pub fn to_chars(self) -> (v: Vec<char>)
        ensures
            v@ == rarity_text(self),
    {
        let mut v: Vec<char> = Vec::new();
        self.push_text(&mut v);
        v
    }

    /// The rarity denoted by free-form source text, per `rarity_of_text`.
    pub fn from_text(s: &str) -> (r: Rarity)
        ensures
            r == rarity_of_text(s@),
    {
        let v = crate::text::str_to_chars(s);
        let n = v.len();
        let r = Rarity::from_chars_range(&v, 0, n);
        proof {
            assert(v@.subrange(0, n as int) =~= s@);
        }
        r
    }

    /// The rarity denoted by `s[from..to]`, per `rarity_of_text`.
    pub fn from_chars_range(s: &Vec<char>, from: usize, to: usize) -> (r: Rarity)
        requires
            from <= to <= s@.len(),
        ensures
            r == rarity_of_text(s@.subrange(from as int, to as int)),
    {
        let common = Rarity::Common.to_chars();
        if crate::text::range_eq(s, from, to, &common) {
            return Rarity::Common;
        }
        let uncommon = Rarity::Uncommon.to_chars();
        if crate::text::range_eq(s, from, to, &uncommon) {
            return Rarity::Uncommon;
        }
        let rare = Rarity::Rare.to_chars();
        if crate::text::range_eq(s, from, to, &rare) {
            return Rarity::Rare;
        }
        let mythic = Rarity::Mythic.to_chars();
        if crate::text::range_eq(s, from, to, &mythic) {
            return Rarity::Mythic;
        }
        Rarity::Unknown
    }
}

/// Ghost image of a raw inventory entry.
pub ghost struct XmlCardV {
    pub cat_id: Seq<char>,
    pub quantity: Seq<char>,
    pub name: Seq<char>,
}

/// A raw inventory entry decoded from the deck manifest: identifier,
/// quantity and display name, all still in text form.
#[derive(Clone, Debug, PartialEq)]
pub struct XmlCard {
    pub cat_id: String,
    pub quantity: String,
    pub name: String,
}

impl View for XmlCard {
    type V = XmlCardV;

    open spec fn view(&self) -> XmlCardV {
        XmlCardV { cat_id: self.cat_id@, quantity: self.quantity@, name: self.name@ }
    }
}

impl XmlCard {
    pub fn new(cat_id: String, quantity: String, name: String) -> (c: XmlCard)
        ensures
            c.cat_id@ == cat_id@,
            c.quantity@ == quantity@,
            c.name@ == name@,
    {
        XmlCard { cat_id, quantity, name }
    }
}

/// Ghost image of a metadata feed record.
pub ghost struct GoatBotsCardV {
    pub name: Seq<char>,
    pub cardset: Seq<char>,
    pub rarity: Seq<char>,
    pub foil: u8,
}

/// A metadata feed record: set code, rarity text and foil marker for one
/// card identifier.
#[derive(Clone, Debug)]
pub struct GoatBotsCard {
    pub name: String,
    pub cardset: String,
    pub rarity: String,
    pub foil: u8,
}

impl View for GoatBotsCard {
    type V = GoatBotsCardV;

    open spec fn view(&self) -> GoatBotsCardV {
        GoatBotsCardV {
            name: self.name@,
            cardset: self.cardset@,
            rarity: self.rarity@,
            foil: self.foil,
        }
    }
}

impl GoatBotsCard {
    pub fn new(name: String, cardset: String, rarity: String, foil: u8) -> (c: GoatBotsCard)
        ensures
            c.name@ == name@,
            c.cardset@ == cardset@,
            c.rarity@ == rarity@,
            c.foil == foil,
    {
        GoatBotsCard { name, cardset, rarity, foil }
    }
}

/// The price block of a catalog record. Only the `tix` price takes part in
/// fusion; the others are carried for completeness.
#[derive(Clone, Debug)]
pub struct Prices {
    pub usd: Option<String>,
    pub usd_foil: Option<String>,
    pub eur: Option<String>,
    pub eur_foil: Option<String>,
    pub tix: Option<String>,
}

/// Ghost image of a catalog record: the identifier and the `tix` price,
/// which is all that fusion reads.
pub ghost struct ScryfallCardV {
    pub mtgo_id: u32,
    pub tix: Option<Seq<char>>,
}

/// A record of the secondary price catalog, keyed by the card identifier.
/// The catalog as a whole is not guaranteed sorted.
#[derive(Clone, Debug)]
pub struct ScryfallCard {
    pub mtgo_id: u32,
    pub name: String,
    pub released_at: String,
    pub rarity: String,
    pub prices: Prices,
}

impl View for ScryfallCard {
    type V = ScryfallCardV;

    open spec fn view(&self) -> ScryfallCardV {
        ScryfallCardV {
            mtgo_id: self.mtgo_id,
            tix: match self.prices.tix {
                Some(ref t) => Some(t@),
                None => None,
            },
        }
    }
}

/// Ghost image of a fused per-card record.
pub ghost struct MtgoCardV {
    pub id: u32,
    pub quantity: u32,
    pub name: Seq<char>,
    pub set: Seq<char>,
    pub rarity: Rarity,
    pub foil: bool,
    pub goatbots_price: Seq<char>,
    pub scryfall_price: Option<Seq<char>>,
}

/// Canonical per-card record produced by collection fusion.
///
/// Prices are carried as the numeric text the feeds and the row codec use;
/// the primary (goatbots) price is always present, the secondary (scryfall)
/// price is absent when not determinable (foil cards have none).
#[derive(Clone, Debug)]
pub struct MtgoCard {
    pub id: u32,
    pub quantity: u32,
    pub name: String,
    pub set: String,
    pub rarity: Rarity,
    pub foil: bool,
    pub goatbots_price: String,
    pub scryfall_price: Option<String>,
}

impl View for MtgoCard {
    type V = MtgoCardV;

    open spec fn view(&self) -> MtgoCardV {
        MtgoCardV {
            id: self.id,
            quantity: self.quantity,
            name: self.name@,
            set: self.set@,
            rarity: self.rarity,
            foil: self.foil,
            goatbots_price: self.goatbots_price@,
            scryfall_price: match self.scryfall_price {
                Some(p) => Some(p@),
                None => None,
            },
        }
    }
}

/// Well-formedness of a fused card: each text field obeys the codec's
/// constraints for its position in a row.
pub open spec fn card_wf(c: MtgoCardV) -> bool {
    &&& name_ok(c.name)
    &&& set_ok(c.set)
    &&& price_ok(c.goatbots_price)
    &&& match c.scryfall_price {
        Some(p) => price_ok(p),
        None => true,
    }
}

} // verus!

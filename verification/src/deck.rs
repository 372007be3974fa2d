//! The deck manifest parser: decodes the raw inventory export — a flat
//! sequence of attribute-bearing records written as self-closing tags with
//! quoted attribute values — into raw entries holding the identifier,
//! quantity and display name from attribute positions 0, 1 and 3. A record
//! whose attributes cannot be enumerated is fatal to the whole parse.

use vstd::prelude::*;

use crate::card::{XmlCard, XmlCardV};
use crate::codec::string_from_range;
use crate::text::{find_char, find_from, lemma_find_from_spec, str_to_chars};

verus! {

/// A fatal decode failure of the export: an unterminated record or an
/// unterminated attribute value.
#[derive(Clone, Copy, Debug, PartialEq, Eq, Structural)]
pub struct DekDecodeError;

/// The attribute values of one record region: the texts between successive
/// quote pairs. An opening quote without its closing quote is malformed.
pub open spec fn attr_values(s: Seq<char>, from: int, to: int) -> Option<Seq<Seq<char>>>
    decreases to - from,
    when 0 <= from && to <= s.len()
    via attr_values_decreases
{
    let q1 = find_from(s, from, '"');
    if q1 >= to {
        Some(Seq::empty())
    } else {
        let q2 = find_from(s, q1 + 1, '"');
        if q2 >= to {
            None
        } else {
            match attr_values(s, q2 + 1, to) {
                None => None,
                Some(rest) => Some(seq![s.subrange(q1 + 1, q2)] + rest),
            }
        }
    }
}

#[via_fn]
proof fn attr_values_decreases(s: Seq<char>, from: int, to: int) {
    if 0 <= from && to <= s.len() {
        if from <= s.len() {
            lemma_find_from_spec(s, from, '"');
            let q1 = find_from(s, from, '"');
            if 0 <= q1 + 1 <= s.len() {
                lemma_find_from_spec(s, q1 + 1, '"');
            }
        }
    }
}

/// The raw entry a record's attribute values denote: positions 0, 1 and 3,
/// defaulting to empty text when the record carries fewer values.
pub open spec fn record_card(vals: Seq<Seq<char>>) -> XmlCardV {
    XmlCardV {
        cat_id: if vals.len() > 0 {
            vals[0]
        } else {
            Seq::empty()
        },
        quantity: if vals.len() > 1 {
            vals[1]
        } else {
            Seq::empty()
        },
        name: if vals.len() > 3 {
            vals[3]
        } else {
            Seq::empty()
        },
    }
}

/// The raw entries denoted by the export text from `from` on: every
/// self-closing tag contributes one record, other tags are skipped, and a
/// tag left open at the end of the text is malformed.
pub open spec fn dek_cards(s: Seq<char>, from: int) -> Option<Seq<XmlCardV>>
    decreases s.len() - from,
    when 0 <= from
    via dek_cards_decreases
{
    let lt = find_from(s, from, '<');
    if lt == s.len() {
        Some(Seq::empty())
    } else {
        let gt = find_from(s, lt + 1, '>');
        if gt == s.len() {
            None
        } else if gt > lt + 1 && s[gt - 1] == '/' {
            match attr_values(s, lt + 1, gt - 1) {
                None => None,
                Some(vals) => match dek_cards(s, gt + 1) {
                    None => None,
                    Some(rest) => Some(seq![record_card(vals)] + rest),
                },
            }
        } else {
            dek_cards(s, gt + 1)
        }
    }
}

#[via_fn]
proof fn dek_cards_decreases(s: Seq<char>, from: int) {
    if 0 <= from && from <= s.len() {
        lemma_find_from_spec(s, from, '<');
        let lt = find_from(s, from, '<');
        if lt < s.len() {
            lemma_find_from_spec(s, lt + 1, '>');
        }
    } else if from > s.len() {
        crate::text::lemma_find_from_nonneg(s, from, '<');
    }
}

/// Extracts the attribute values of the record region `v[from..to]`.
fn attr_values_exec(v: &Vec<char>, from: usize, to: usize) -> (r: Option<Vec<String>>)
    requires
        from <= to <= v@.len(),
    ensures
        match r {
            Some(vals) => attr_values(v@, from as int, to as int) == Some(
                vals@.map_values(|t: String| t@),
            ),
            None => attr_values(v@, from as int, to as int) is None,
        },
{
    let mut out: Vec<String> = Vec::new();
    let mut pos: usize = from;
    proof {
        assert(out@.map_values(|t: String| t@) =~= Seq::<Seq<char>>::empty());
    }
    loop
        invariant
            from <= pos,
            pos <= v@.len(),
            to <= v@.len(),
            attr_values(v@, from as int, to as int) == (match attr_values(
                v@,
                pos as int,
                to as int,
            ) {
                None => None::<Seq<Seq<char>>>,
                Some(tail) => Some(out@.map_values(|t: String| t@) + tail),
            }),
        decreases v@.len() - pos,
    {
        let ghost built = out@.map_values(|t: String| t@);
        let q1 = find_char(v, pos, '"');
        if q1 >= to {
            proof {
                assert(attr_values(v@, pos as int, to as int) == Some(Seq::<Seq<char>>::empty()));
                assert(built + Seq::<Seq<char>>::empty() =~= built);
            }
            return Some(out);
        }
        let q2 = find_char(v, q1 + 1, '"');
        if q2 >= to {
            proof {
                assert(attr_values(v@, pos as int, to as int) is None);
            }
            return None;
        }
        out.push(string_from_range(v, q1 + 1, q2));
        proof {
            assert(out@.map_values(|t: String| t@) =~= built.push(
                v@.subrange(q1 + 1, q2 as int),
            ));
        }
        pos = q2 + 1;
        proof {
            match attr_values(v@, pos as int, to as int) {
                None => {},
                Some(tail) => {
                    assert(built.push(v@.subrange(q1 + 1, q2 as int)) + tail =~= built + (seq![
                        v@.subrange(q1 + 1, q2 as int),
                    ] + tail));
                },
            }
        }
    }
}

/// Reads an attribute value by position, defaulting to empty text.
fn val_at(vals: &Vec<String>, i: usize) -> (r: String)
    ensures
        r@ == if i < vals@.len() {
            vals@[i as int]@
        } else {
            Seq::<char>::empty()
        },
{
    if i < vals.len() {
        vals[i].clone()
    } else {
        String::new()
    }
}

/// Parses the raw inventory export into its ordered raw entries, in source
/// order. Fails, for the whole parse, when a tag or an attribute value is
/// left unterminated.
pub fn parse_dek_xml(content: &str) -> (r: Result<Vec<XmlCard>, DekDecodeError>)
    ensures
        match r {
            Ok(cards) => dek_cards(content@, 0) == Some(
                cards@.map_values(|c: XmlCard| c@),
            ),
            Err(_) => dek_cards(content@, 0) is None,
        },
{
    let v = str_to_chars(content);
    let n = v.len();
    let mut out: Vec<XmlCard> = Vec::new();
    let mut pos: usize = 0;
    proof {
        assert(out@.map_values(|c: XmlCard| c@) =~= Seq::<XmlCardV>::empty());
    }
    loop
        invariant
            pos <= n,
            n == v@.len(),
            v@ == content@,
            dek_cards(content@, 0) == (match dek_cards(v@, pos as int) {
                None => None::<Seq<XmlCardV>>,
                Some(tail) => Some(out@.map_values(|c: XmlCard| c@) + tail),
            }),
        decreases n - pos,
    {
        let ghost built = out@.map_values(|c: XmlCard| c@);
        let lt = find_char(&v, pos, '<');
        if lt == n {
            proof {
                assert(dek_cards(v@, pos as int) == Some(Seq::<XmlCardV>::empty()));
                assert(built + Seq::<XmlCardV>::empty() =~= built);
            }
            return Ok(out);
        }
        let gt = find_char(&v, lt + 1, '>');
        if gt == n {
            proof {
                assert(dek_cards(v@, pos as int) is None);
            }
            return Err(DekDecodeError);
        }
        if gt > lt + 1 && v[gt - 1] == '/' {
            let vals = match attr_values_exec(&v, lt + 1, gt - 1) {
                Some(vals) => vals,
                None => {
                    proof {
                        assert(dek_cards(v@, pos as int) is None);
                    }
                    return Err(DekDecodeError);
                },
            };
            let card = XmlCard {
                cat_id: val_at(&vals, 0),
                quantity: val_at(&vals, 1),
                name: val_at(&vals, 3),
            };
            proof {
                assert(card@ == record_card(vals@.map_values(|t: String| t@)));
            }
            out.push(card);
            proof {
                assert(out@.map_values(|c: XmlCard| c@) =~= built.push(card@));
            }
            pos = gt + 1;
            proof {
                match dek_cards(v@, pos as int) {
                    None => {},
                    Some(tail) => {
                        assert(built.push(card@) + tail =~= built + (seq![card@] + tail));
                    },
                }
            }
        } else {
            pos = gt + 1;
        }
    }
}

} // verus!

//! The ledger document: one header line of comma-joined timestamp labels,
//! then one codec row per tracked card, ascending by identifier. This text
//! is both the save and the load format.

use vstd::prelude::*;

use crate::codec::{decode_row, encode_row, string_from_range};
use crate::history::{
    ch_wf, hist_wf, newest_quantity_of, AggV, CardHistory, CardHistoryV, CollectionHistory,
    CollectionHistoryV, ObsV,
};
use crate::text::{
    chars_to_string, check_label, check_name, find_char, find_from, label_ok,
    lemma_dec_of_canon, lemma_find_from_is, lemma_find_from_spec, name_ok, set_ok,
    str_to_chars,
};

verus! {

/// The header line: the ledger's labels joined by commas.
pub open spec fn ts_join(ts: Seq<Seq<char>>) -> Seq<char>
    decreases ts.len(),
{
    if ts.len() == 0 {
        Seq::empty()
    } else if ts.len() == 1 {
        ts[0]
    } else {
        ts_join(ts.drop_last()) + seq![','] + ts.last()
    }
}

/// The row block: each card's encoded row followed by a line break.
pub open spec fn rows_text(cards: Seq<AggV>) -> Seq<char>
    decreases cards.len(),
{
    if cards.len() == 0 {
        Seq::empty()
    } else {
        rows_text(cards.drop_last()) + encode_row(cards.last().card_history) + seq!['\n']
    }
}

/// The full document text of a ledger.
pub open spec fn doc_text(ch: CollectionHistoryV) -> Seq<char> {
    ts_join(ch.timestamps) + seq!['\n'] + rows_text(ch.cards)
}

/// The labels denoted by a header line: the comma-separated pieces, or no
/// labels at all for an empty header.
pub open spec fn split_labels(s: Seq<char>, from: int, to: int) -> Seq<Seq<char>>
    decreases to - from,
    when from >= 0 && to <= s.len()
    via split_labels_decreases
{
    if from >= to {
        Seq::empty()
    } else {
        let e = if find_from(s, from, ',') < to {
            find_from(s, from, ',')
        } else {
            to
        };
        if e >= to {
            seq![s.subrange(from, to)]
        } else {
            seq![s.subrange(from, e)] + split_labels(s, e + 1, to)
        }
    }
}

#[via_fn]
proof fn split_labels_decreases(s: Seq<char>, from: int, to: int) {
    if 0 <= from && from < to && to <= s.len() {
        lemma_find_from_spec(s, from, ',');
    }
}

/// The rows denoted by the document tail: one codec row per line, each
/// line ended by a line break.
pub open spec fn decode_rows(s: Seq<char>, from: int) -> Option<Seq<CardHistoryV>>
    decreases s.len() - from,
    when from >= 0
    via decode_rows_decreases
{
    if from >= s.len() {
        Some(Seq::empty())
    } else {
        let e = find_from(s, from, '\n');
        if e == s.len() {
            None
        } else {
            match decode_row(s.subrange(from, e)) {
                None => None,
                Some(h) => match decode_rows(s, e + 1) {
                    None => None,
                    Some(rest) => Some(seq![h] + rest),
                },
            }
        }
    }
}

#[via_fn]
proof fn decode_rows_decreases(s: Seq<char>, from: int) {
    if 0 <= from && from < s.len() {
        lemma_find_from_spec(s, from, '\n');
    }
}

/// The structural checks a loaded document must pass: comma-free labels,
/// well-formed names and sets, observation counts aligned with the ledger,
/// and strictly ascending identifiers.
pub open spec fn doc_checks_ok(labels: Seq<Seq<char>>, rows: Seq<CardHistoryV>) -> bool {
    &&& forall|i: int| 0 <= i < labels.len() ==> label_ok(#[trigger] labels[i])
    &&& forall|i: int| 0 <= i < rows.len() ==> name_ok((#[trigger] rows[i]).name)
    &&& forall|i: int| 0 <= i < rows.len() ==> set_ok((#[trigger] rows[i]).set)
    &&& forall|i: int|
        0 <= i < rows.len() ==> (#[trigger] rows[i]).price_history.len() == labels.len()
    &&& forall|i: int, j: int|
        0 <= i < j < rows.len() ==> (#[trigger] rows[i]).id < (#[trigger] rows[j]).id
}

/// The ledger denoted by a document: header labels, decoded rows, the
/// structural checks, and the recomputed newest-quantity caches.
pub open spec fn decode_doc(s: Seq<char>) -> Option<CollectionHistoryV> {
    let hl = find_from(s, 0, '\n');
    if hl == s.len() {
        None
    } else {
        let labels = split_labels(s, 0, hl);
        match decode_rows(s, hl + 1) {
            None => None,
            Some(rows) => {
                if doc_checks_ok(labels, rows) {
                    Some(
                        CollectionHistoryV {
                            timestamps: labels,
                            cards: rows.map_values(
                                |h: CardHistoryV| AggV {
                                    card_history: h,
                                    newest_quantity: newest_quantity_of(h.price_history),
                                },
                            ),
                        },
                    )
                } else {
                    None
                }
            },
        }
    }
}

/// A structurally malformed document: a missing header or row terminator,
/// a malformed row, a label or field that breaks the format's character
/// rules, misaligned observation counts, or identifiers out of order.
#[derive(Clone, Copy, Debug, PartialEq, Eq, Structural)]
pub struct DocDecodeError;

impl CollectionHistory {
    /// Serializes the ledger: the header line of comma-joined labels, then
    /// one codec row per tracked card. Rows are emitted ascending by
    /// identifier; under the ledger invariant the tracked cards already
    /// stand in that order, so the pass leaves the ledger unchanged.
    pub fn to_csv_string(&mut self) -> (r: String)
        requires
            ch_wf(old(self)@),
        ensures
            final(self)@ == old(self)@,
            r@ == doc_text(old(self)@),
    {
        let mut out: Vec<char> = Vec::new();
        let ghost tsv = self@.timestamps;
        let mut i: usize = 0;
        proof {
            assert(tsv.subrange(0, 0) =~= Seq::<Seq<char>>::empty());
        }
        while i < self.timestamps.len()
            invariant
                i <= self.timestamps@.len(),
                tsv == self@.timestamps,
                self@ == old(self)@,
                out@ == ts_join(tsv.subrange(0, i as int)),
            decreases self.timestamps@.len() - i,
        {
            if i > 0 {
                out.push(',');
            }
            crate::codec::push_label_chars(&self.timestamps[i], &mut out);
            i = i + 1;
            proof {
                let p = tsv.subrange(0, i as int);
                assert(p.drop_last() =~= tsv.subrange(0, i - 1));
                assert(p.last() == tsv[i - 1]);
                if i == 1 {
                    assert(out@ =~= ts_join(p));
                } else {
                    assert(out@ =~= ts_join(p));
                }
            }
        }
        proof {
            assert(tsv.subrange(0, tsv.len() as int) =~= tsv);
        }
        out.push('\n');
        let ghost head = out@;
        let ghost cardsv = self@.cards;
        let mut k: usize = 0;
        proof {
            assert(cardsv.subrange(0, 0) =~= Seq::<AggV>::empty());
            assert(out@ =~= head + rows_text(cardsv.subrange(0, 0)));
        }
        while k < self.card_histories.len()
            invariant
                k <= self.card_histories@.len(),
                cardsv == self@.cards,
                self@ == old(self)@,
                head == ts_join(self@.timestamps) + seq!['\n'],
                out@ == head + rows_text(cardsv.subrange(0, k as int)),
            decreases self.card_histories@.len() - k,
        {
            let row = self.card_histories[k].card_history.to_csv_row();
            crate::codec::push_label_chars(&row, &mut out);
            out.push('\n');
            k = k + 1;
            proof {
                let p = cardsv.subrange(0, k as int);
                assert(p.drop_last() =~= cardsv.subrange(0, k - 1));
                assert(p.last() == cardsv[k - 1]);
                assert(cardsv[k - 1] == self.card_histories@[k - 1]@);
                assert(out@ =~= head + rows_text(p));
            }
        }
        proof {
            assert(cardsv.subrange(0, cardsv.len() as int) =~= cardsv);
            assert(out@ =~= doc_text(old(self)@));
        }
        chars_to_string(&out)
    }

    /// Loads a ledger from its document text.
    ///
    /// Succeeds exactly when the header parses, every row decodes, and the
    /// structural checks hold; the whole load fails rather than dropping a
    /// malformed row, and the loaded ledger satisfies the ledger
    /// invariant.
    #[verifier::rlimit(100)]
    pub fn from_csv_string(s: &str) -> (r: Result<CollectionHistory, DocDecodeError>)
        ensures
            match r {
                Ok(ch) => {
                    &&& decode_doc(s@) == Some(ch@)
                    &&& ch_wf(ch@)
                },
                Err(_) => decode_doc(s@) is None,
            },
    {
        let v = str_to_chars(s);
        let n = v.len();
        let hl = find_char(&v, 0, '\n');
        if hl == n {
            return Err(DocDecodeError);
        }
        // header labels
        let mut timestamps: Vec<String> = Vec::new();
        let mut pos: usize = 0;
        proof {
            assert(timestamps@.map_values(|t: String| t@) =~= Seq::<Seq<char>>::empty());
        }
        while pos < hl
            invariant
                pos <= hl < n,
                n == v@.len(),
                v@ == s@,
                hl == find_from(v@, 0, '\n'),
                split_labels(v@, 0, hl as int) == timestamps@.map_values(|t: String| t@)
                    + split_labels(v@, pos as int, hl as int),
            decreases hl - pos,
        {
            let ghost built = timestamps@.map_values(|t: String| t@);
            let ghost p0 = pos as int;
            let c = find_char(&v, pos, ',');
            let e = if c < hl {
                c
            } else {
                hl
            };
            let lab = string_from_range(&v, pos, e);
            timestamps.push(lab);
            proof {
                assert(timestamps@.map_values(|t: String| t@) =~= built.push(
                    v@.subrange(p0, e as int),
                ));
            }
            if e >= hl {
                pos = hl;
                proof {
                    assert(split_labels(v@, p0, hl as int) =~= seq![v@.subrange(p0, hl as int)]);
                    assert(split_labels(v@, pos as int, hl as int) =~= Seq::<Seq<char>>::empty());
                    assert(built.push(v@.subrange(p0, e as int)) + Seq::<Seq<char>>::empty()
                        =~= built + seq![v@.subrange(p0, hl as int)]);
                }
            } else {
                pos = e + 1;
                proof {
                    assert(split_labels(v@, p0, hl as int) == seq![v@.subrange(p0, e as int)]
                        + split_labels(v@, pos as int, hl as int));
                    assert(built.push(v@.subrange(p0, e as int)) + split_labels(
                        v@,
                        pos as int,
                        hl as int,
                    ) =~= built + (seq![v@.subrange(p0, e as int)] + split_labels(
                        v@,
                        pos as int,
                        hl as int,
                    )));
                }
            }
        }
        let ghost labelsv = timestamps@.map_values(|t: String| t@);
        proof {
            assert(split_labels(v@, pos as int, hl as int) =~= Seq::<Seq<char>>::empty());
            assert(labelsv + Seq::<Seq<char>>::empty() =~= labelsv);
            assert(split_labels(v@, 0, hl as int) == labelsv);
        }
        // rows
        let mut rows: Vec<CardHistory> = Vec::new();
        let mut rpos: usize = hl + 1;
        proof {
            assert(rows@.map_values(|h: CardHistory| h@) =~= Seq::<CardHistoryV>::empty());
        }
        while rpos < n
            invariant
                hl < rpos <= n,
                n == v@.len(),
                v@ == s@,
                hl == find_from(v@, 0, '\n'),
                split_labels(v@, 0, hl as int) == labelsv,
                labelsv == timestamps@.map_values(|t: String| t@),
                decode_rows(v@, hl + 1) == (match decode_rows(v@, rpos as int) {
                    None => None::<Seq<CardHistoryV>>,
                    Some(tail) => Some(rows@.map_values(|h: CardHistory| h@) + tail),
                }),
            decreases n - rpos,
        {
            let ghost built = rows@.map_values(|h: CardHistory| h@);
            let e = find_char(&v, rpos, '\n');
            if e == n {
                proof {
                    assert(decode_rows(v@, rpos as int) is None);
                    assert(decode_doc(s@) is None);
                }
                return Err(DocDecodeError);
            }
            let line = string_from_range(&v, rpos, e);
            let h = match CardHistory::from_csv_row(line) {
                Ok(h) => h,
                Err(_) => {
                    proof {
                        assert(decode_rows(v@, rpos as int) is None);
                        assert(decode_doc(s@) is None);
                    }
                    return Err(DocDecodeError);
                },
            };
            rows.push(h);
            proof {
                assert(rows@.map_values(|h2: CardHistory| h2@) =~= built.push(h@));
            }
            rpos = e + 1;
            proof {
                match decode_rows(v@, rpos as int) {
                    None => {},
                    Some(tail) => {
                        assert(built.push(h@) + tail =~= built + (seq![h@] + tail));
                    },
                }
            }
        }
        let ghost rowsv = rows@.map_values(|h: CardHistory| h@);
        proof {
            assert(decode_rows(v@, rpos as int) == Some(Seq::<CardHistoryV>::empty()));
            assert(rowsv + Seq::<CardHistoryV>::empty() =~= rowsv);
            assert(decode_rows(v@, hl + 1) == Some(rowsv));
        }
        // structural checks
        let mut i: usize = 0;
        while i < timestamps.len()
            invariant
                i <= timestamps@.len(),
                v@ == s@,
                hl < n == v@.len(),
                hl == find_from(v@, 0, '\n'),
                split_labels(v@, 0, hl as int) == labelsv,
                decode_rows(v@, hl + 1) == Some(rowsv),
                labelsv == timestamps@.map_values(|t: String| t@),
                forall|k: int| 0 <= k < i ==> label_ok(#[trigger] labelsv[k]),
            decreases timestamps@.len() - i,
        {
            let lc = str_to_chars(timestamps[i].as_str());
            if !check_label(&lc) {
                proof {
                    assert(!label_ok(labelsv[i as int]));
                    assert(!doc_checks_ok(labelsv, rowsv));
                    assert(decode_doc(s@) is None);
                }
                return Err(DocDecodeError);
            }
            i = i + 1;
        }
        let mut k: usize = 0;
        while k < rows.len()
            invariant
                k <= rows@.len(),
                v@ == s@,
                hl < n == v@.len(),
                hl == find_from(v@, 0, '\n'),
                split_labels(v@, 0, hl as int) == labelsv,
                decode_rows(v@, hl + 1) == Some(rowsv),
                labelsv == timestamps@.map_values(|t: String| t@),
                rowsv == rows@.map_values(|h: CardHistory| h@),
                forall|m: int| 0 <= m < labelsv.len() ==> label_ok(#[trigger] labelsv[m]),
                forall|m: int| 0 <= m < k ==> name_ok((#[trigger] rowsv[m]).name),
                forall|m: int| 0 <= m < k ==> set_ok((#[trigger] rowsv[m]).set),
                forall|m: int|
                    0 <= m < k ==> (#[trigger] rowsv[m]).price_history.len() == labelsv.len(),
                forall|m: int, m2: int|
                    0 <= m < m2 < k ==> (#[trigger] rowsv[m]).id < (#[trigger] rowsv[m2]).id,
            decreases rows@.len() - k,
        {
            let nc = str_to_chars(rows[k].name.as_str());
            if !check_name(&nc) {
                proof {
                    assert(!name_ok(rowsv[k as int].name));
                    assert(!doc_checks_ok(labelsv, rowsv));
                    assert(decode_doc(s@) is None);
                }
                return Err(DocDecodeError);
            }
            let sc = str_to_chars(rows[k].set.as_str());
            if !check_label(&sc) {
                proof {
                    assert(!set_ok(rowsv[k as int].set));
                    assert(!doc_checks_ok(labelsv, rowsv));
                    assert(decode_doc(s@) is None);
                }
                return Err(DocDecodeError);
            }
            if rows[k].price_history.len() != timestamps.len() {
                proof {
                    assert(rowsv[k as int].price_history.len() != labelsv.len());
                    assert(!doc_checks_ok(labelsv, rowsv));
                    assert(decode_doc(s@) is None);
                }
                return Err(DocDecodeError);
            }
            if k > 0 && rows[k - 1].id >= rows[k].id {
                proof {
                    assert(rowsv[k - 1].id >= rowsv[k as int].id);
                    assert(!doc_checks_ok(labelsv, rowsv));
                    assert(decode_doc(s@) is None);
                }
                return Err(DocDecodeError);
            }
            proof {
                assert forall|m: int, m2: int|
                    0 <= m < m2 < k + 1 implies (#[trigger] rowsv[m]).id < (
                #[trigger] rowsv[m2]).id by {
                    if m2 == k && k > 0 {
                        if m < k - 1 {
                            assert(rowsv[m].id < rowsv[k - 1].id);
                        }
                        assert(rowsv[k - 1].id < rowsv[k as int].id);
                    }
                }
            }
            k = k + 1;
        }
        proof {
            assert(doc_checks_ok(labelsv, rowsv));
        }
        let ch = CollectionHistory::from_card_history(timestamps, rows);
        proof {
            lemma_decode_rows_wf(v@, hl + 1);
            assert(ch@.cards =~= rowsv.map_values(
                |h: CardHistoryV| AggV {
                    card_history: h,
                    newest_quantity: newest_quantity_of(h.price_history),
                },
            ));
            assert(decode_doc(s@) == Some(ch@));
            assert(ch_wf(ch@)) by {
                assert forall|m: int| 0 <= m < ch@.cards.len() implies crate::history::agg_wf(
                    #[trigger] ch@.cards[m],
                ) by {
                    assert(ch@.cards[m].card_history == rowsv[m]);
                    assert(crate::history::hist_wf(rowsv[m]));
                }
                assert forall|m: int, m2: int|
                    0 <= m < m2 < ch@.cards.len() implies (
                #[trigger] ch@.cards[m]).card_history.id != (
                #[trigger] ch@.cards[m2]).card_history.id && ch@.cards[m].card_history.id
                    <= ch@.cards[m2].card_history.id by {
                    assert(ch@.cards[m].card_history == rowsv[m]);
                    assert(ch@.cards[m2].card_history == rowsv[m2]);
                    assert(rowsv[m].id < rowsv[m2].id);
                }
            }
        }
        Ok(ch)
    }
}

/// Every row a document tail decodes to has a canonical quantity label and
/// well-formed prices: the decoder builds them that way.
proof fn lemma_decode_rows_wf(s: Seq<char>, from: int)
    requires
        0 <= from,
    ensures
        decode_rows(s, from) is Some ==> forall|k: int|
            0 <= k < decode_rows(s, from)->0.len() ==> crate::text::is_canon_dec_u32(
                (#[trigger] decode_rows(s, from)->0[k]).quantity,
            ) && forall|m: int|
                0 <= m < decode_rows(s, from)->0[k].price_history.len()
                    ==> crate::history::obs_wf(
                    #[trigger] decode_rows(s, from)->0[k].price_history[m],
                ),
    decreases s.len() - from,
{
    if from >= s.len() {
    } else {
        let e = find_from(s, from, '\n');
        lemma_find_from_spec(s, from, '\n');
        if e < s.len() {
            match decode_row(s.subrange(from, e)) {
                None => {},
                Some(h) => {
                    lemma_decode_row_wf(s.subrange(from, e));
                    lemma_decode_rows_wf(s, e + 1);
                    match decode_rows(s, e + 1) {
                        None => {},
                        Some(rest) => {
                            let all = decode_rows(s, from)->0;
                            assert(all == seq![h] + rest);
                            assert(all[0] == h);
                            assert(forall|k: int| 1 <= k < all.len() ==> all[k] == rest[k - 1]);
                        },
                    }
                },
            }
        }
    }
}

/// A decoded row carries a canonical quantity label and valid price text
/// in every observation.
proof fn lemma_decode_row_wf(s: Seq<char>)
    ensures
        decode_row(s) is Some ==> crate::text::is_canon_dec_u32(decode_row(s)->0.quantity)
            && forall|m: int|
            0 <= m < decode_row(s)->0.price_history.len() ==> crate::history::obs_wf(
                #[trigger] decode_row(s)->0.price_history[m],
            ),
{
    if decode_row(s) is Some {
        let c0 = find_from(s, 0, ',');
        let c1 = find_from(s, c0 + 1, ',');
        lemma_dec_of_canon(crate::text::dec_value(s.subrange(c0 + 1, c1)));
        let qe = crate::codec::find_quote_end(s, c1 + 2);
        let c3 = find_from(s, qe + 2, ',');
        let c4 = find_from(s, c3 + 1, ',');
        let c5 = find_from(s, c4 + 1, ',');
        crate::text::lemma_find_from_nonneg(s, 0, ',');
        crate::text::lemma_find_from_nonneg(s, c0 + 1, ',');
        assert(qe >= 0) by {
            crate::codec::lemma_find_quote_end_nonneg(s, c1 + 2);
        }
        crate::text::lemma_find_from_nonneg(s, qe + 2, ',');
        crate::text::lemma_find_from_nonneg(s, c3 + 1, ',');
        crate::text::lemma_find_from_nonneg(s, c4 + 1, ',');
        lemma_decode_obs_list_wf(s, c5);
    }
}

/// Every observation a row tail decodes to has well-formed prices.
proof fn lemma_decode_obs_list_wf(s: Seq<char>, from: int)
    requires
        0 <= from,
    ensures
        crate::codec::decode_obs_list(s, from) is Some ==> forall|m: int|
            0 <= m < crate::codec::decode_obs_list(s, from)->0.len()
                ==> crate::history::obs_wf(
                #[trigger] crate::codec::decode_obs_list(s, from)->0[m],
            ),
    decreases s.len() - from,
{
    if from >= s.len() {
    } else if s[from] != ',' {
    } else {
        let e = find_from(s, from + 1, ',');
        lemma_find_from_spec(s, from + 1, ',');
        match crate::codec::decode_obs(s.subrange(from + 1, e)) {
            None => {},
            Some(o) => {
                lemma_decode_obs_list_wf(s, e);
                match crate::codec::decode_obs_list(s, e) {
                    None => {},
                    Some(rest) => {
                        let all = crate::codec::decode_obs_list(s, from)->0;
                        assert(all == seq![o] + rest);
                        assert(all[0] == o);
                        assert(forall|k: int| 1 <= k < all.len() ==> all[k] == rest[k - 1]);
                        assert(crate::history::obs_wf(o)) by {
                            lemma_decode_obs_prices(s.subrange(from + 1, e));
                        }
                    },
                }
            },
        }
    }
}

/// The prices a single observation field decodes to are valid price text.
proof fn lemma_decode_obs_prices(t: Seq<char>)
    ensures
        crate::codec::decode_obs(t) is Some ==> crate::history::obs_wf(
            crate::codec::decode_obs(t)->0,
        ),
{
}

/// The header joiner unfolded at the front.
proof fn lemma_ts_join_head(ts: Seq<Seq<char>>)
    requires
        ts.len() > 0,
    ensures
        ts_join(ts) == if ts.len() == 1 {
            ts[0]
        } else {
            ts[0] + seq![','] + ts_join(ts.drop_first())
        },
    decreases ts.len(),
{
    if ts.len() == 1 {
    } else if ts.len() == 2 {
        assert(ts.drop_last() =~= seq![ts[0]]);
        assert(ts.drop_first() =~= seq![ts[1]]);
        assert(ts_join(ts.drop_last()) == ts[0]);
        assert(ts_join(ts.drop_first()) == ts[1]);
    } else {
        let p = ts.drop_last();
        lemma_ts_join_head(p);
        assert(p[0] == ts[0]);
        assert(p.drop_first() =~= ts.drop_first().drop_last());
        lemma_ts_join_head(ts.drop_first());
        assert(ts.drop_first().len() > 1);
        assert(ts.drop_first().last() == ts.last());
        assert(ts_join(ts) == ts_join(p) + seq![','] + ts.last());
        assert(ts_join(p) == p[0] + seq![','] + ts_join(p.drop_first()));
        assert(ts_join(ts.drop_first()) == ts.drop_first()[0] + seq![','] + ts_join(
            ts.drop_first().drop_first(),
        ) || ts.drop_first().len() == 1);
        assert(ts_join(ts.drop_first()) == ts_join(ts.drop_first().drop_last()) + seq![',']
            + ts.drop_first().last());
        assert(ts_join(ts) =~= ts[0] + seq![','] + ts_join(ts.drop_first()));
    }
}

/// The row block unfolded at the front.
proof fn lemma_rows_text_head(cards: Seq<AggV>)
    requires
        cards.len() > 0,
    ensures
        rows_text(cards) == encode_row(cards[0].card_history) + seq!['\n'] + rows_text(
            cards.drop_first(),
        ),
    decreases cards.len(),
{
    if cards.len() == 1 {
        assert(cards.drop_last() =~= Seq::<AggV>::empty());
        assert(cards.drop_first() =~= Seq::<AggV>::empty());
        assert(rows_text(cards) =~= encode_row(cards[0].card_history) + seq!['\n']
            + rows_text(cards.drop_first()));
    } else {
        let p = cards.drop_last();
        lemma_rows_text_head(p);
        assert(p[0] == cards[0]);
        assert(p.drop_first() =~= cards.drop_first().drop_last());
        assert(cards.drop_first().last() == cards.last());
        assert(rows_text(cards) == rows_text(p) + encode_row(cards.last().card_history)
            + seq!['\n']);
        assert(rows_text(cards.drop_first()) == rows_text(cards.drop_first().drop_last())
            + encode_row(cards.drop_first().last().card_history) + seq!['\n']);
        assert(rows_text(cards) =~= encode_row(cards[0].card_history) + seq!['\n']
            + rows_text(cards.drop_first()));
    }
}

/// A comma-free, line-break-free label sequence joins into a header
/// without line breaks.
proof fn lemma_ts_join_clean(ts: Seq<Seq<char>>)
    requires
        forall|i: int| 0 <= i < ts.len() ==> label_ok(#[trigger] ts[i]),
    ensures
        forall|i: int| 0 <= i < ts_join(ts).len() ==> ts_join(ts)[i] != '\n',
    decreases ts.len(),
{
    if ts.len() == 0 {
    } else if ts.len() == 1 {
        assert(forall|i: int| 0 <= i < ts[0].len() ==> ts[0][i] != '\n');
    } else {
        let p = ts.drop_last();
        lemma_ts_join_clean(p);
        let t = ts_join(ts);
        assert(t == ts_join(p) + seq![','] + ts.last());
        assert forall|i: int| 0 <= i < t.len() implies t[i] != '\n' by {
            if i < ts_join(p).len() {
                assert(t[i] == ts_join(p)[i]);
            } else if i == ts_join(p).len() {
                assert(t[i] == ',');
            } else {
                assert(t[i] == ts.last()[i - ts_join(p).len() - 1]);
            }
        }
    }
}

/// No character of a well-formed history's encoded row is a line break.
proof fn lemma_encode_row_clean(h: CardHistoryV)
    requires
        hist_wf(h),
    ensures
        forall|i: int| 0 <= i < encode_row(h).len() ==> encode_row(h)[i] != '\n',
{
    let s = encode_row(h);
    let idt = crate::text::dec_of(h.id as nat);
    lemma_dec_of_canon(h.id as nat);
    let c0 = idt.len() as int;
    let c1 = c0 + 1 + h.quantity.len();
    let qo = c1 + 1;
    let qe = qo + 1 + h.name.len();
    let c3 = qe + 2 + h.set.len();
    let c4 = c3 + 1 + crate::card::rarity_text(h.rarity).len();
    let c5 = c4 + 1 + crate::codec::bool_text(h.foil).len();
    lemma_obs_part_clean(h.price_history);
    assert forall|i: int| 0 <= i < s.len() implies s[i] != '\n' by {
        if i < c0 {
            assert(s[i] == idt[i]);
            assert(crate::text::is_digit(idt[i]));
        } else if i == c0 {
            assert(s[i] == ',');
        } else if i < c1 {
            assert(s[i] == h.quantity[i - (c0 + 1)]);
            assert(crate::text::is_digit(h.quantity[i - (c0 + 1)]));
        } else if i == c1 {
            assert(s[i] == ',');
        } else if i == qo {
            assert(s[i] == '"');
        } else if i < qe {
            assert(s[i] == h.name[i - (qo + 1)]);
        } else if i == qe {
            assert(s[i] == '"');
        } else if i == qe + 1 {
            assert(s[i] == ',');
        } else if i < c3 {
            assert(s[i] == h.set[i - (qe + 2)]);
        } else if i == c3 {
            assert(s[i] == ',');
        } else if i < c4 {
            assert(s[i] == crate::card::rarity_text(h.rarity)[i - (c3 + 1)]);
            crate::codec::lemma_rarity_text_chars(h.rarity);
        } else if i == c4 {
            assert(s[i] == ',');
        } else if i < c5 {
            assert(s[i] == crate::codec::bool_text(h.foil)[i - (c4 + 1)]);
        } else {
            assert(s[i] == obs_part_of(h.price_history)[i - c5]);
        }
    }
}

/// Shorthand so the clean-row proof can index the observation block.
spec fn obs_part_of(obs: Seq<ObsV>) -> Seq<char> {
    crate::codec::obs_part(obs)
}

/// No character of a well-formed observation block is a line break.
proof fn lemma_obs_part_clean(obs: Seq<ObsV>)
    requires
        forall|k: int| 0 <= k < obs.len() ==> crate::history::obs_wf(#[trigger] obs[k]),
    ensures
        forall|i: int| 0 <= i < obs_part_of(obs).len() ==> obs_part_of(obs)[i] != '\n',
    decreases obs.len(),
{
    if obs.len() > 0 {
        let t = obs_part_of(obs);
        let ot = crate::codec::obs_text(obs.first());
        crate::codec::lemma_obs_text_no_newline(obs.first());
        assert(forall|k: int|
            0 <= k < obs.drop_first().len() ==> crate::history::obs_wf(
                #[trigger] obs.drop_first()[k],
            ));
        lemma_obs_part_clean(obs.drop_first());
        assert(t == seq![','] + ot + obs_part_of(obs.drop_first()));
        assert forall|i: int| 0 <= i < t.len() implies t[i] != '\n' by {
            if i == 0 {
                assert(t[i] == ',');
            } else if i < 1 + ot.len() {
                assert(t[i] == ot[i - 1]);
            } else {
                assert(t[i] == obs_part_of(obs.drop_first())[i - 1 - ot.len()]);
            }
        }
    }
}

/// Splitting the header written for non-empty comma-free labels gives the
/// labels back.
proof fn lemma_split_join(s: Seq<char>, from: int, to: int, ts: Seq<Seq<char>>)
    requires
        0 <= from <= to <= s.len(),
        s.subrange(from, to) == ts_join(ts),
        forall|i: int| 0 <= i < ts.len() ==> label_ok(#[trigger] ts[i]),
        forall|i: int| 0 <= i < ts.len() ==> (#[trigger] ts[i]).len() > 0,
    ensures
        split_labels(s, from, to) == ts,
    decreases ts.len(),
{
    if ts.len() == 0 {
        assert(to - from == ts_join(ts).len());
        assert(from == to);
        assert(split_labels(s, from, to) =~= ts);
    } else {
        lemma_ts_join_head(ts);
        let a = ts[0];
        let e0 = from + a.len();
        assert(s.subrange(from, to).len() == to - from);
        assert(ts_join(ts).len() >= a.len());
        assert(e0 <= to);
        assert(label_ok(a));
        assert forall|i: int| from <= i < e0 implies s[i] != ',' by {
            assert(s.subrange(from, to)[i - from] == s[i]);
            assert(s.subrange(from, to)[i - from] == a[i - from]);
            assert(a[i - from] != ',');
        }
        if ts.len() == 1 {
            assert(e0 == to);
            crate::text::lemma_find_from_nonneg(s, from, ',');
            lemma_find_from_spec(s, from, ',');
            let f = find_from(s, from, ',');
            assert(f >= to || s[f] == ',');
            assert(f >= e0);
            assert(split_labels(s, from, to) =~= seq![s.subrange(from, to)]);
            assert(s.subrange(from, to) == a);
            assert(seq![a] =~= ts);
        } else {
            assert(s.subrange(from, to)[a.len() as int] == ',');
            assert(s.subrange(from, to)[a.len() as int] == s[e0]);
            assert(s[e0] == ',');
            lemma_find_from_is(s, from, e0, ',');
            assert(ts.drop_first().len() > 0);
            assert(ts_join(ts.drop_first()).len() > 0) by {
                lemma_ts_join_head(ts.drop_first());
                assert(ts.drop_first()[0].len() > 0);
            }
            assert(e0 < to);
            assert(s.subrange(from, e0) =~= a) by {
                assert(forall|i: int|
                    0 <= i < a.len() ==> #[trigger] s.subrange(from, e0)[i] == s.subrange(
                        from,
                        to,
                    )[i]);
            }
            assert(s.subrange(e0 + 1, to) =~= ts_join(ts.drop_first())) by {
                assert(forall|i: int|
                    0 <= i < to - e0 - 1 ==> #[trigger] s.subrange(e0 + 1, to)[i] == s.subrange(
                        from,
                        to,
                    )[i + a.len() + 1]);
            }
            assert(forall|i: int|
                0 <= i < ts.drop_first().len() ==> label_ok(#[trigger] ts.drop_first()[i])
                    && (#[trigger] ts.drop_first()[i]).len() > 0);
            lemma_split_join(s, e0 + 1, to, ts.drop_first());
            assert(split_labels(s, from, to) == seq![s.subrange(from, e0)] + split_labels(
                s,
                e0 + 1,
                to,
            ));
            assert(seq![a] + ts.drop_first() =~= ts);
        }
    }
}

/// Decoding the row block written for well-formed sorted rows gives them
/// back.
proof fn lemma_decode_rows_of(s: Seq<char>, from: int, cards: Seq<AggV>)
    requires
        0 <= from <= s.len(),
        s.subrange(from, s.len() as int) == rows_text(cards),
        forall|k: int| 0 <= k < cards.len() ==> hist_wf((#[trigger] cards[k]).card_history),
    ensures
        decode_rows(s, from) == Some(
            cards.map_values(|a: AggV| a.card_history),
        ),
    decreases cards.len(),
{
    if cards.len() == 0 {
        assert(s.len() - from == rows_text(cards).len());
        assert(from == s.len());
        assert(decode_rows(s, from) == Some(Seq::<CardHistoryV>::empty()));
        assert(cards.map_values(|a: AggV| a.card_history) =~= Seq::<CardHistoryV>::empty());
    } else {
        lemma_rows_text_head(cards);
        let h0 = cards[0].card_history;
        let row = encode_row(h0);
        lemma_encode_row_clean(h0);
        let e = from + row.len();
        assert(s.subrange(from, s.len() as int).len() == s.len() - from);
        assert(rows_text(cards).len() >= row.len() + 1);
        assert(e < s.len());
        assert forall|i: int| from <= i < e implies s[i] != '\n' by {
            assert(s.subrange(from, s.len() as int)[i - from] == s[i]);
            assert(s.subrange(from, s.len() as int)[i - from] == row[i - from]);
            assert(row[i - from] != '\n');
        }
        assert(s.subrange(from, s.len() as int)[row.len() as int] == '\n');
        assert(s.subrange(from, s.len() as int)[row.len() as int] == s[e]);
        assert(s[e] == '\n');
        lemma_find_from_is(s, from, e, '\n');
        assert(e < s.len());
        assert(s.subrange(from, e) =~= row) by {
            assert(forall|i: int|
                0 <= i < row.len() ==> #[trigger] s.subrange(from, e)[i] == s.subrange(
                    from,
                    s.len() as int,
                )[i]);
        }
        crate::codec::lemma_row_round_trip(h0);
        assert(decode_row(s.subrange(from, e)) == Some(h0));
        assert(s.subrange(e + 1, s.len() as int) =~= rows_text(cards.drop_first())) by {
            assert(forall|i: int|
                0 <= i < s.len() - e - 1 ==> #[trigger] s.subrange(e + 1, s.len() as int)[i]
                    == s.subrange(from, s.len() as int)[i + row.len() + 1]);
        }
        assert(forall|k: int|
            0 <= k < cards.drop_first().len() ==> hist_wf(
                (#[trigger] cards.drop_first()[k]).card_history,
            ));
        lemma_decode_rows_of(s, e + 1, cards.drop_first());
        assert(seq![h0] + cards.drop_first().map_values(|a: AggV| a.card_history)
            =~= cards.map_values(|a: AggV| a.card_history));
    }
}

/// The document round trip: loading the document written for any ledger
/// that satisfies the ledger invariant and uses non-empty timestamp labels
/// gives the ledger back.
#[verifier::rlimit(100)]
pub proof fn lemma_doc_round_trip(ch: CollectionHistoryV)
    requires
        ch_wf(ch),
        forall|i: int| 0 <= i < ch.timestamps.len() ==> (#[trigger] ch.timestamps[i]).len() > 0,
    ensures
        decode_doc(doc_text(ch)) == Some(ch),
{
    let s = doc_text(ch);
    let hd = ts_join(ch.timestamps);
    let hl = hd.len() as int;
    lemma_ts_join_clean(ch.timestamps);
    assert forall|i: int| 0 <= i < hl implies s[i] != '\n' by {
        assert(s[i] == hd[i]);
    }
    assert(s[hl] == '\n');
    lemma_find_from_is(s, 0, hl, '\n');
    assert(hl < s.len());
    assert(s.subrange(0, hl) =~= hd);
    lemma_split_join(s, 0, hl, ch.timestamps);
    assert(s.subrange(hl + 1, s.len() as int) =~= rows_text(ch.cards));
    assert(forall|k: int|
        0 <= k < ch.cards.len() ==> hist_wf((#[trigger] ch.cards[k]).card_history));
    lemma_decode_rows_of(s, hl + 1, ch.cards);
    let rows = ch.cards.map_values(|a: AggV| a.card_history);
    assert(doc_checks_ok(ch.timestamps, rows)) by {
        assert(forall|i: int| 0 <= i < rows.len() ==> #[trigger] rows[i] == ch.cards[i].card_history);
        assert forall|i: int, j: int|
            0 <= i < j < rows.len() implies (#[trigger] rows[i]).id < (
        #[trigger] rows[j]).id by {
            assert(ch.cards[i].card_history.id <= ch.cards[j].card_history.id);
            assert(ch.cards[i].card_history.id != ch.cards[j].card_history.id);
        }
    }
    let mapped = rows.map_values(
        |h: CardHistoryV| AggV {
            card_history: h,
            newest_quantity: newest_quantity_of(h.price_history),
        },
    );
    assert forall|i: int| 0 <= i < ch.cards.len() implies #[trigger] mapped[i]
        == ch.cards[i] by {
        assert(crate::history::agg_wf(ch.cards[i]));
        assert(rows[i] == ch.cards[i].card_history);
    }
    assert(mapped =~= ch.cards);
}

} // verus!

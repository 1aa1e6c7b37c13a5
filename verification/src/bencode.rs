//! The bencode codec: the canonical binary dictionary format used for
//! `.torrent` metadata, tracker responses and identity hashing.
//!
//! A bencoded value is an integer `i<dec>e`, a byte string `<len>:<bytes>`,
//! a list `l<items>e`, or a dictionary `d<key><value>...e` whose keys are
//! byte strings emitted in strictly ascending byte order.

use vstd::prelude::*;
use vstd::string::StrSliceExecFns;
use crate::numerals::{
    all_digits, digits_val, int_digits, is_digit, nat_digits, parse_int, i64_digits, parse_i64,
    u64_digits, lemma_nat_digits_shape, lemma_int_digits_shape, lemma_parse_int_digits,
};

verus! {

/// The mathematical form of a bencoded value. Dictionaries are sequences
/// of key/value pairs; well-formed values keep them strictly sorted.
pub enum BValue {
    Int(int),
    Str(Seq<u8>),
    List(Seq<BValue>),
    Dict(Seq<(Seq<u8>, BValue)>),
}

/// A bencoded value. Dictionaries are held as key-sorted vectors of pairs;
/// `decode` always produces them sorted and deduplicated.
#[derive(Debug, PartialEq)]
pub enum Bencode {
    BNumber(i64),
    BString(Vec<u8>),
    BList(Vec<Bencode>),
    BDict(Vec<(Vec<u8>, Bencode)>),
}

/// Decoding failures, one kind per malformed construct.
#[derive(Debug, PartialEq)]
pub enum BencodeError {
    InvalidBencode,
    InvalidBencodeType,
    InvalidBencodeNumber,
    InvalidBencodeString,
    InvalidBencodeList,
    InvalidBencodeDict,
}

impl View for Bencode {
    type V = BValue;

    open spec fn view(&self) -> BValue {
        bview(*self)
    }
}

/// The mathematical value a `Bencode` tree stands for.
pub open spec fn bview(b: Bencode) -> BValue
    decreases b,
{
    match b {
        Bencode::BNumber(n) => BValue::Int(n as int),
        Bencode::BString(s) => BValue::Str(s@),
        Bencode::BList(items) => BValue::List(bviews(items@)),
        Bencode::BDict(pairs) => BValue::Dict(bpair_views(pairs@)),
    }
}

pub open spec fn bviews(items: Seq<Bencode>) -> Seq<BValue>
    decreases items,
{
    if items.len() == 0 {
        Seq::empty()
    } else {
        seq![bview(items[0])] + bviews(items.subrange(1, items.len() as int))
    }
}

pub open spec fn bpair_views(pairs: Seq<(Vec<u8>, Bencode)>) -> Seq<(Seq<u8>, BValue)>
    decreases pairs,
{
    if pairs.len() == 0 {
        Seq::empty()
    } else {
        seq![(pairs[0].0@, bview(pairs[0].1))] + bpair_views(pairs.subrange(1, pairs.len() as int))
    }
}

pub proof fn lemma_bviews_index(items: Seq<Bencode>, i: int)
    requires
        0 <= i < items.len(),
    ensures
        bviews(items).len() == items.len(),
        bviews(items)[i] == bview(items[i]),
    decreases items.len(),
{
    lemma_bviews_len(items);
    if i > 0 {
        lemma_bviews_index(items.subrange(1, items.len() as int), i - 1);
    }
}

pub proof fn lemma_bviews_len(items: Seq<Bencode>)
    ensures
        bviews(items).len() == items.len(),
    decreases items.len(),
{
    if items.len() > 0 {
        lemma_bviews_len(items.subrange(1, items.len() as int));
    }
}

pub proof fn lemma_bpair_views_index(pairs: Seq<(Vec<u8>, Bencode)>, i: int)
    requires
        0 <= i < pairs.len(),
    ensures
        bpair_views(pairs).len() == pairs.len(),
        bpair_views(pairs)[i] == (pairs[i].0@, bview(pairs[i].1)),
    decreases pairs.len(),
{
    lemma_bpair_views_len(pairs);
    if i > 0 {
        lemma_bpair_views_index(pairs.subrange(1, pairs.len() as int), i - 1);
    }
}

pub proof fn lemma_bpair_views_len(pairs: Seq<(Vec<u8>, Bencode)>)
    ensures
        bpair_views(pairs).len() == pairs.len(),
    decreases pairs.len(),
{
    if pairs.len() > 0 {
        lemma_bpair_views_len(pairs.subrange(1, pairs.len() as int));
    }
}

/// Strict lexicographic byte order, the order bencoded dictionaries keep
/// their keys in.
pub open spec fn lex_lt(a: Seq<u8>, b: Seq<u8>) -> bool
    decreases a.len(),
{
    if b.len() == 0 {
        false
    } else if a.len() == 0 {
        true
    } else if a[0] < b[0] {
        true
    } else if a[0] > b[0] {
        false
    } else {
        lex_lt(a.drop_first(), b.drop_first())
    }
}

/// Keys strictly ascending: the dictionary invariant.
pub open spec fn entries_sorted(entries: Seq<(Seq<u8>, BValue)>) -> bool {
    forall|i: int, j: int|
        0 <= i < j < entries.len() ==> lex_lt(#[trigger] entries[i].0, #[trigger] entries[j].0)
}

/// Every key short enough that its decimal length parses back as an `i64`.
pub open spec fn entries_keys_bounded(entries: Seq<(Seq<u8>, BValue)>) -> bool {
    forall|i: int| 0 <= i < entries.len() ==> #[trigger] entries[i].0.len() <= i64::MAX
}

/// Every value in the dictionary is itself well-formed.
pub open spec fn entries_values_wf(entries: Seq<(Seq<u8>, BValue)>) -> bool {
    forall|i: int| 0 <= i < entries.len() ==> bval_wf(#[trigger] entries[i].1)
}

/// Every value in the dictionary is itself bounded.
pub open spec fn entries_values_bounded(entries: Seq<(Seq<u8>, BValue)>) -> bool {
    forall|i: int| 0 <= i < entries.len() ==> bval_bounded(#[trigger] entries[i].1)
}

/// Well-formedness: every integer fits in `i64` and every dictionary
/// has strictly ascending keys — what canonical encoding asks of a
/// value. `decode` only produces well-formed values.
pub open spec fn bval_wf(v: BValue) -> bool
    decreases v,
{
    match v {
        BValue::Int(n) => i64::MIN <= n <= i64::MAX,
        BValue::Str(s) => true,
        BValue::List(items) => forall|i: int|
            0 <= i < items.len() ==> bval_wf(#[trigger] items[i]),
        BValue::Dict(entries) => (forall|i: int|
            0 <= i < entries.len() ==> bval_wf(#[trigger] entries[i].1)) && entries_sorted(
            entries,
        ),
    }
}

/// Size limits: every byte string and key is short enough that its
/// decimal length parses back as an `i64`. `decode` only produces
/// bounded values, and decoding an encoding needs them.
pub open spec fn bval_bounded(v: BValue) -> bool
    decreases v,
{
    match v {
        BValue::Int(n) => true,
        BValue::Str(s) => s.len() <= i64::MAX,
        BValue::List(items) => forall|i: int|
            0 <= i < items.len() ==> bval_bounded(#[trigger] items[i]),
        BValue::Dict(entries) => (forall|i: int|
            0 <= i < entries.len() ==> bval_bounded(#[trigger] entries[i].1))
            && entries_keys_bounded(entries),
    }
}

/// A well-formed list has well-formed elements.
proof fn lemma_wf_list_elem(items: Seq<BValue>, i: int)
    requires
        bval_wf(BValue::List(items)),
        0 <= i < items.len(),
    ensures
        bval_wf(items[i]),
{
    let l = BValue::List(items);
    assert(l->List_0 == items);
    assert(bval_wf(l->List_0[i]));
}

/// A well-formed dictionary has well-formed values.
proof fn lemma_wf_dict_entry(entries: Seq<(Seq<u8>, BValue)>, i: int)
    requires
        bval_wf(BValue::Dict(entries)),
        0 <= i < entries.len(),
    ensures
        bval_wf(entries[i].1),
{
    let d = BValue::Dict(entries);
    assert(d->Dict_0 == entries);
    assert(bval_wf(d->Dict_0[i].1));
}

/// The canonical encoding of a value.
pub open spec fn spec_encode(v: BValue) -> Seq<u8>
    decreases v, 1int,
{
    match v {
        BValue::Int(n) => seq![105u8] + int_digits(n) + seq![101u8],
        BValue::Str(s) => spec_encode_str(s),
        BValue::List(items) => seq![108u8] + spec_encode_items(items) + seq![101u8],
        BValue::Dict(entries) => seq![100u8] + spec_encode_entries(entries) + seq![101u8],
    }
}

/// The encoding of a byte string: its length in decimal, a colon, the bytes.
pub open spec fn spec_encode_str(s: Seq<u8>) -> Seq<u8> {
    nat_digits(s.len() as int) + seq![58u8] + s
}

pub open spec fn spec_encode_items(items: Seq<BValue>) -> Seq<u8>
    decreases items, 0int,
{
    if items.len() == 0 {
        Seq::empty()
    } else {
        spec_encode(items[0]) + spec_encode_items(items.drop_first())
    }
}

pub open spec fn spec_encode_entries(entries: Seq<(Seq<u8>, BValue)>) -> Seq<u8>
    decreases entries, 0int,
{
    if entries.len() == 0 {
        Seq::empty()
    } else {
        spec_encode_str(entries[0].0) + spec_encode(entries[0].1)
            + spec_encode_entries(entries.drop_first())
    }
}

/// Index of the first occurrence of `b` in `s`.
pub open spec fn find_byte(s: Seq<u8>, b: u8) -> Option<int>
    decreases s.len(),
{
    if s.len() == 0 {
        None
    } else if s[0] == b {
        Some(0)
    } else {
        match find_byte(s.drop_first(), b) {
            Some(i) => Some(i + 1),
            None => None,
        }
    }
}

/// Sorted insertion into a dictionary: replaces the value when the key is
/// already present, keeping keys strictly ascending.
pub open spec fn dict_insert(entries: Seq<(Seq<u8>, BValue)>, k: Seq<u8>, v: BValue) -> Seq<
    (Seq<u8>, BValue),
>
    decreases entries.len(),
{
    if entries.len() == 0 {
        seq![(k, v)]
    } else if lex_lt(k, entries[0].0) {
        seq![(k, v)] + entries
    } else if k == entries[0].0 {
        seq![(k, v)] + entries.drop_first()
    } else {
        seq![entries[0]] + dict_insert(entries.drop_first(), k, v)
    }
}

/// What a prefix of `data` decodes to, and how many bytes it consumes.
/// `None` on malformed input. Mirrors the wire grammar exactly.
pub open spec fn spec_decode(data: Seq<u8>) -> Option<(BValue, int)>
    decreases data.len(), 0int,
{
    if data.len() == 0 {
        None
    } else if data[0] == 105 {
        // 'i': integer up to the first 'e'
        match find_byte(data.drop_first(), 101u8) {
            Some(j) => match parse_int(data.subrange(1, 1 + j)) {
                Some(n) => Some((BValue::Int(n), j + 2)),
                None => None,
            },
            None => None,
        }
    } else if is_digit(data[0]) {
        // digit: byte string, `<len>:<bytes>`
        match find_byte(data, 58u8) {
            Some(j) => match parse_int(data.take(j)) {
                Some(n) => if 0 <= n && j + 1 + n <= data.len() {
                    Some((BValue::Str(data.subrange(j + 1, j + 1 + n)), j + 1 + n))
                } else {
                    None
                },
                None => None,
            },
            None => None,
        }
    } else if data[0] == 108 {
        // 'l': list of values up to a matching 'e'
        match spec_decode_items(data.drop_first(), Seq::empty()) {
            Some((items, m)) => Some((BValue::List(items), 1 + m)),
            None => None,
        }
    } else if data[0] == 100 {
        // 'd': dictionary of string keys and values up to a matching 'e'
        match spec_decode_entries(data.drop_first(), Seq::empty()) {
            Some((entries, m)) => Some((BValue::Dict(entries), 1 + m)),
            None => None,
        }
    } else {
        None
    }
}

pub open spec fn spec_decode_items(data: Seq<u8>, acc: Seq<BValue>) -> Option<(Seq<BValue>, int)>
    decreases data.len(), 1int,
{
    if data.len() == 0 {
        None
    } else if data[0] == 101 {
        Some((acc, 1))
    } else {
        match spec_decode(data) {
            Some((v, n)) => if 1 <= n <= data.len() {
                match spec_decode_items(data.skip(n), acc.push(v)) {
                    Some((items, m)) => Some((items, n + m)),
                    None => None,
                }
            } else {
                None
            },
            None => None,
        }
    }
}

pub open spec fn spec_decode_entries(data: Seq<u8>, acc: Seq<(Seq<u8>, BValue)>) -> Option<
    (Seq<(Seq<u8>, BValue)>, int),
>
    decreases data.len(), 1int,
{
    if data.len() == 0 {
        None
    } else if data[0] == 101 {
        Some((acc, 1))
    } else {
        match spec_decode(data) {
            Some((k, n1)) => if !(k matches BValue::Str(_)) {
                None
            } else if !(1 <= n1 <= data.len()) {
                None
            } else {
                match spec_decode(data.skip(n1)) {
                    Some((v, n2)) => if 1 <= n2 <= data.len() - n1 {
                        match spec_decode_entries(
                            data.skip(n1 + n2),
                            dict_insert(acc, k->Str_0, v),
                        ) {
                            Some((entries, m)) => Some((entries, n1 + n2 + m)),
                            None => None,
                        }
                    } else {
                        None
                    },
                    None => None,
                }
            },
            None => None,
        }
    }
}

/// Lexicographic order is transitive.
pub proof fn lemma_lex_trans(a: Seq<u8>, b: Seq<u8>, c: Seq<u8>)
    requires
        lex_lt(a, b),
        lex_lt(b, c),
    ensures
        lex_lt(a, c),
    decreases a.len() + b.len() + c.len(),
{
    if a.len() > 0 && b.len() > 0 && c.len() > 0 {
        if a[0] == b[0] && b[0] == c[0] {
            lemma_lex_trans(a.drop_first(), b.drop_first(), c.drop_first());
        }
    }
}

/// Peeling an equal prefix does not change the lexicographic order.
pub proof fn lemma_lex_skip(a: Seq<u8>, b: Seq<u8>, i: int)
    requires
        0 <= i <= a.len(),
        i <= b.len(),
        forall|j: int| 0 <= j < i ==> a[j] == b[j],
    ensures
        lex_lt(a, b) == lex_lt(a.skip(i), b.skip(i)),
    decreases i,
{
    if i > 0 {
        assert(a.drop_first().skip(i - 1) =~= a.skip(i));
        assert(b.drop_first().skip(i - 1) =~= b.skip(i));
        lemma_lex_skip(a.drop_first(), b.drop_first(), i - 1);
    } else {
        assert(a.skip(0) =~= a);
        assert(b.skip(0) =~= b);
    }
}

/// Three-way lexicographic comparison of two byte keys.
/// Returns 0 when equal, a negative value when `a` sorts first, a
/// positive one when `b` does.
pub fn key_cmp(a: &Vec<u8>, b: &Vec<u8>) -> (r: i8)
    ensures
        r == 0i8 ==> a@ == b@,
        r < 0i8 ==> lex_lt(a@, b@),
        r > 0i8 ==> lex_lt(b@, a@),
{
    let mut i: usize = 0;
    while i < a.len() && i < b.len()
        invariant
            i <= a@.len(),
            i <= b@.len(),
            forall|j: int| 0 <= j < i ==> a@[j] == b@[j],
        decreases a@.len() - i,
    {
        if a[i] < b[i] {
            proof {
                lemma_lex_skip(a@, b@, i as int);
            }
            return -1;
        }
        if a[i] > b[i] {
            proof {
                lemma_lex_skip(b@, a@, i as int);
            }
            return 1;
        }
        i = i + 1;
    }
    proof {
        lemma_lex_skip(a@, b@, if i <= b@.len() { i as int } else { b@.len() as int });
        lemma_lex_skip(b@, a@, if i <= a@.len() { i as int } else { a@.len() as int });
    }
    if a.len() < b.len() {
        return -1;
    }
    if a.len() > b.len() {
        return 1;
    }
    proof {
        assert(a@ =~= b@);
    }
    0
}

/// When the first `i` keys all sort before `k`, insertion happens in the
/// remainder.
pub proof fn lemma_dict_insert_split(entries: Seq<(Seq<u8>, BValue)>, k: Seq<u8>, v: BValue, i: int)
    requires
        0 <= i <= entries.len(),
        forall|j: int| 0 <= j < i ==> lex_lt(#[trigger] entries[j].0, k),
    ensures
        dict_insert(entries, k, v) == entries.take(i) + dict_insert(entries.skip(i), k, v),
    decreases i,
{
    if i == 0 {
        assert(entries.take(0) =~= Seq::empty());
        assert(entries.skip(0) =~= entries);
        assert(dict_insert(entries, k, v) =~= entries.take(0) + dict_insert(entries.skip(0), k, v));
    } else {
        // head key sorts before k, so insertion recurses past it
        assert(lex_lt(entries[0].0, k));
        lemma_lex_not_both(entries[0].0, k);
        let rest = entries.drop_first();
        assert(forall|j: int| 0 <= j < i - 1 ==> lex_lt(#[trigger] rest[j].0, k));
        lemma_dict_insert_split(rest, k, v, i - 1);
        assert(rest.take(i - 1) =~= entries.take(i).drop_first());
        assert(rest.skip(i - 1) =~= entries.skip(i));
        assert(seq![entries[0]] + (rest.take(i - 1) + dict_insert(rest.skip(i - 1), k, v))
            =~= entries.take(i) + dict_insert(entries.skip(i), k, v));
    }
}

/// Strict order is asymmetric and irreflexive.
pub proof fn lemma_lex_not_both(a: Seq<u8>, b: Seq<u8>)
    ensures
        !(lex_lt(a, b) && lex_lt(b, a)),
        !(lex_lt(a, b) && a == b),
    decreases a.len() + b.len(),
{
    if a.len() > 0 && b.len() > 0 && a[0] == b[0] {
        lemma_lex_not_both(a.drop_first(), b.drop_first());
    }
}

/// All entries of the views sequence, elementwise.
proof fn lemma_views_elementwise(s: Seq<(Vec<u8>, Bencode)>)
    ensures
        bpair_views(s).len() == s.len(),
        forall|j: int|
            0 <= j < s.len() ==> #[trigger] bpair_views(s)[j] == (s[j].0@, bview(s[j].1)),
{
    lemma_bpair_views_len(s);
    assert forall|j: int| 0 <= j < s.len() implies #[trigger] bpair_views(s)[j] == (
        s[j].0@,
        bview(s[j].1),
    ) by {
        lemma_bpair_views_index(s, j);
    }
}

/// Inserts a key/value pair into a key-sorted vector of pairs, replacing
/// the value if the key is already present. Keeps the dictionary sorted
/// and its values well-formed.
fn dict_put(pairs: &mut Vec<(Vec<u8>, Bencode)>, key: Vec<u8>, value: Bencode)
    ensures
        bpair_views(final(pairs)@) == dict_insert(bpair_views(old(pairs)@), key@, value@),
        entries_sorted(bpair_views(old(pairs)@)) && entries_values_wf(bpair_views(old(pairs)@))
            && entries_keys_bounded(bpair_views(old(pairs)@)) && entries_values_bounded(
            bpair_views(old(pairs)@),
        ) && bval_wf(bview(value)) && bval_bounded(bview(value)) && key@.len() <= i64::MAX
            ==> entries_sorted(bpair_views(final(pairs)@)) && entries_values_wf(
            bpair_views(final(pairs)@),
        ) && entries_keys_bounded(bpair_views(final(pairs)@)) && entries_values_bounded(
            bpair_views(final(pairs)@),
        ),
{
    let ghost orig = pairs@;
    let ghost es = bpair_views(orig);
    let ghost vv = bview(value);
    proof {
        lemma_views_elementwise(orig);
    }
    let mut i: usize = 0;
    while i < pairs.len()
        invariant
            orig == old(pairs)@,
            pairs@ == orig,
            es == bpair_views(orig),
            es.len() == orig.len(),
            vv == bview(value),
            i <= orig.len(),
            forall|j: int| 0 <= j < es.len() ==> #[trigger] es[j] == (orig[j].0@, bview(orig[j].1)),
            forall|j: int| 0 <= j < i ==> lex_lt(#[trigger] es[j].0, key@),
        decreases orig.len() - i,
    {
        let c = key_cmp(&key, &pairs[i].0);
        if c == 0 {
            let ghost k = key@;
            pairs[i] = (key, value);
            proof {
                let now = pairs@;
                assert(now.len() == orig.len());
                assert(now[i as int] == (key, value));
                assert(forall|j: int| 0 <= j < now.len() && j != i ==> now[j] == orig[j]);
                lemma_lex_not_both(k, es[i as int].0);
                lemma_dict_insert_split(es, k, vv, i as int);
                lemma_dict_put_done(orig, pairs@, k, vv, i as int, true);
                let nv = bpair_views(pairs@);
                lemma_views_elementwise(pairs@);
                if entries_sorted(es) && entries_values_wf(es) && entries_keys_bounded(es)
                    && entries_values_bounded(es) && bval_wf(vv) && bval_bounded(vv) && key@.len()
                    <= i64::MAX {
                    assert forall|x: int, y: int| 0 <= x < y < nv.len() implies lex_lt(
                        nv[x].0,
                        nv[y].0,
                    ) by {
                        if x == i {
                            assert(lex_lt(es[x].0, es[y].0));
                        } else if y == i {
                            assert(lex_lt(es[x].0, es[y].0));
                        } else {
                            assert(lex_lt(es[x].0, es[y].0));
                        }
                    }
                    assert(entries_values_wf(nv));
                    assert(entries_keys_bounded(nv));
                    assert(entries_values_bounded(nv));
                }
            }
            return ;
        }
        if c < 0 {
            let ghost k = key@;
            pairs.insert(i, (key, value));
            proof {
                let now = pairs@;
                assert(now == orig.subrange(0, i as int).push((key, value)) + orig.subrange(
                    i as int,
                    orig.len() as int,
                ));
                assert(now.len() == orig.len() + 1);
                assert(forall|j: int| 0 <= j < i ==> now[j] == orig[j]);
                assert(now[i as int] == (key, value));
                assert(forall|j: int| i < j < now.len() ==> now[j] == orig[j - 1]);
                lemma_dict_insert_split(es, k, vv, i as int);
                lemma_dict_put_done(orig, pairs@, k, vv, i as int, false);
                let nv = bpair_views(pairs@);
                lemma_views_elementwise(pairs@);
                if entries_sorted(es) && entries_values_wf(es) && entries_keys_bounded(es)
                    && entries_values_bounded(es) && bval_wf(vv) && bval_bounded(vv) && key@.len()
                    <= i64::MAX {
                    assert forall|x: int, y: int| 0 <= x < y < nv.len() implies lex_lt(
                        nv[x].0,
                        nv[y].0,
                    ) by {
                        if y < i {
                            assert(lex_lt(es[x].0, es[y].0));
                        } else if y == i {
                            assert(lex_lt(es[x].0, k));
                        } else if x < i {
                            assert(lex_lt(es[x].0, es[y - 1].0));
                        } else if x == i {
                            if y - 1 > i {
                                assert(lex_lt(es[i as int].0, es[y - 1].0));
                                lemma_lex_trans(k, es[i as int].0, es[y - 1].0);
                            }
                        } else {
                            assert(lex_lt(es[x - 1].0, es[y - 1].0));
                        }
                    }
                    assert(entries_values_wf(nv));
                    assert(entries_keys_bounded(nv));
                    assert(entries_values_bounded(nv));
                }
            }
            return ;
        }
        i = i + 1;
    }
    let ghost k = key@;
    pairs.push((key, value));
    proof {
        lemma_dict_insert_split(es, k, vv, es.len() as int);
        assert(es.skip(es.len() as int) =~= Seq::empty());
        assert(es.take(es.len() as int) =~= es);
        lemma_bpair_views_take_push(orig, pairs@, k, vv);
        let nv = bpair_views(pairs@);
        lemma_views_elementwise(pairs@);
        if entries_sorted(es) && entries_values_wf(es) && entries_keys_bounded(es)
            && entries_values_bounded(es) && bval_wf(vv) && bval_bounded(vv) && key@.len()
            <= i64::MAX {
            assert forall|x: int, y: int| 0 <= x < y < nv.len() implies lex_lt(
                nv[x].0,
                nv[y].0,
            ) by {
                if y < es.len() {
                    assert(lex_lt(es[x].0, es[y].0));
                } else {
                    assert(lex_lt(es[x].0, k));
                }
            }
            assert(entries_values_wf(nv));
            assert(entries_keys_bounded(nv));
            assert(entries_values_bounded(nv)) by {
                assert forall|x: int| 0 <= x < nv.len() implies bval_bounded(
                    (#[trigger] nv[x]).1,
                ) by {
                    if x < es.len() {
                        assert(nv[x].1 == es[x].1);
                        assert(bval_bounded(es[x].1));
                    } else {
                        assert(nv[x].1 == vv);
                    }
                }
            }
        }
    }
}

/// Relates the vector after an in-place `dict_put` at slot `i` to the
/// spec-level split form.
proof fn lemma_dict_put_done(
    orig: Seq<(Vec<u8>, Bencode)>,
    now: Seq<(Vec<u8>, Bencode)>,
    k: Seq<u8>,
    v: BValue,
    i: int,
    replaced: bool,
)
    requires
        0 <= i < orig.len(),
        replaced ==> now.len() == orig.len() && (forall|j: int|
            0 <= j < orig.len() && j != i ==> now[j] == orig[j]),
        !replaced ==> now.len() == orig.len() + 1 && (forall|j: int| 0 <= j < i ==> now[j]
            == orig[j]) && (forall|j: int| i < j < now.len() ==> now[j] == orig[j - 1]),
        now[i].0@ == k,
        bview(now[i].1) == v,
        replaced ==> lex_lt(k, bpair_views(orig)[i].0) == false && k == bpair_views(orig)[i].0,
        !replaced ==> lex_lt(k, bpair_views(orig)[i].0),
    ensures
        bpair_views(now) == bpair_views(orig).take(i) + dict_insert(
            bpair_views(orig).skip(i),
            k,
            v,
        ),
{
    let es = bpair_views(orig);
    lemma_bpair_views_len(orig);
    lemma_bpair_views_len(now);
    assert forall|j: int| 0 <= j < orig.len() implies #[trigger] es[j] == (
        orig[j].0@,
        bview(orig[j].1),
    ) by {
        lemma_bpair_views_index(orig, j);
    }
    assert forall|j: int| 0 <= j < now.len() implies #[trigger] bpair_views(now)[j] == (
        now[j].0@,
        bview(now[j].1),
    ) by {
        lemma_bpair_views_index(now, j);
    }
    if replaced {
        assert(es.skip(i).len() > 0);
        assert(es.skip(i)[0] == es[i]);
        assert(dict_insert(es.skip(i), k, v) =~= seq![(k, v)] + es.skip(i).drop_first());
        assert(bpair_views(now) =~= es.take(i) + dict_insert(es.skip(i), k, v));
    } else {
        assert(es.skip(i).len() > 0);
        assert(es.skip(i)[0] == es[i]);
        assert(dict_insert(es.skip(i), k, v) =~= seq![(k, v)] + es.skip(i));
        assert(bpair_views(now) =~= es.take(i) + dict_insert(es.skip(i), k, v));
    }
}

/// Appending a pair at the end matches insertion past every existing key.
proof fn lemma_bpair_views_take_push(
    orig: Seq<(Vec<u8>, Bencode)>,
    now: Seq<(Vec<u8>, Bencode)>,
    k: Seq<u8>,
    v: BValue,
)
    requires
        now.len() == orig.len() + 1,
        forall|j: int| 0 <= j < orig.len() ==> now[j] == orig[j],
        now[orig.len() as int].0@ == k,
        bview(now[orig.len() as int].1) == v,
    ensures
        bpair_views(now) == bpair_views(orig) + seq![(k, v)],
{
    lemma_bpair_views_len(orig);
    lemma_bpair_views_len(now);
    assert forall|j: int| 0 <= j < now.len() implies #[trigger] bpair_views(now)[j] == (
        now[j].0@,
        bview(now[j].1),
    ) by {
        lemma_bpair_views_index(now, j);
    }
    assert forall|j: int| 0 <= j < orig.len() implies #[trigger] bpair_views(orig)[j] == (
        orig[j].0@,
        bview(orig[j].1),
    ) by {
        lemma_bpair_views_index(orig, j);
    }
    assert(bpair_views(now) =~= bpair_views(orig) + seq![(k, v)]);
}

/// Appends the bytes of a slice.
fn push_bytes(out: &mut Vec<u8>, src: &[u8])
    ensures
        final(out)@ == old(out)@ + src@,
{
    let mut i: usize = 0;
    while i < src.len()
        invariant
            i <= src@.len(),
            out@ == old(out)@ + src@.take(i as int),
        decreases src@.len() - i,
    {
        out.push(src[i]);
        i = i + 1;
        assert(src@.take(i as int) =~= src@.take(i - 1).push(src@[i - 1]));
        assert(out@ =~= old(out)@ + src@.take(i as int));
    }
    assert(src@.take(src@.len() as int) =~= src@);
    assert(out@ =~= old(out)@ + src@);
}

pub proof fn lemma_encode_items_push(s: Seq<BValue>, v: BValue)
    ensures
        spec_encode_items(s.push(v)) == spec_encode_items(s) + spec_encode(v),
    decreases s.len(),
{
    let p = s.push(v);
    if s.len() == 0 {
        assert(p.drop_first() =~= s);
        assert(p[0] == v);
        assert(spec_encode_items(p) == spec_encode(v) + spec_encode_items(s));
        assert(spec_encode(v) + spec_encode_items(s) =~= spec_encode_items(s) + spec_encode(v));
    } else {
        assert(p[0] == s[0]);
        assert(p.drop_first() =~= s.drop_first().push(v));
        lemma_encode_items_push(s.drop_first(), v);
        assert(spec_encode_items(p) == spec_encode(s[0]) + (spec_encode_items(s.drop_first())
            + spec_encode(v)));
        assert(spec_encode(s[0]) + (spec_encode_items(s.drop_first()) + spec_encode(v)) =~= (
        spec_encode(s[0]) + spec_encode_items(s.drop_first())) + spec_encode(v));
    }
}

pub proof fn lemma_encode_entries_push(s: Seq<(Seq<u8>, BValue)>, k: Seq<u8>, v: BValue)
    ensures
        spec_encode_entries(s.push((k, v))) == spec_encode_entries(s) + spec_encode_str(k)
            + spec_encode(v),
    decreases s.len(),
{
    let p = s.push((k, v));
    if s.len() == 0 {
        assert(p.drop_first() =~= s);
        assert(p[0] == (k, v));
        assert(spec_encode_entries(p) == spec_encode_str(k) + spec_encode(v)
            + spec_encode_entries(s));
        assert(spec_encode_str(k) + spec_encode(v) + spec_encode_entries(s)
            =~= spec_encode_entries(s) + spec_encode_str(k) + spec_encode(v));
    } else {
        assert(p[0] == s[0]);
        assert(p.drop_first() =~= s.drop_first().push((k, v)));
        lemma_encode_entries_push(s.drop_first(), k, v);
        assert(spec_encode_entries(p) == spec_encode_str(s[0].0) + spec_encode(s[0].1) + (
        spec_encode_entries(s.drop_first()) + spec_encode_str(k) + spec_encode(v)));
        assert(spec_encode_str(s[0].0) + spec_encode(s[0].1) + (spec_encode_entries(
            s.drop_first(),
        ) + spec_encode_str(k) + spec_encode(v)) =~= (spec_encode_str(s[0].0) + spec_encode(
            s[0].1,
        ) + spec_encode_entries(s.drop_first())) + spec_encode_str(k) + spec_encode(v));
    }
}

proof fn lemma_bviews_take_push(items: Seq<Bencode>, i: int)
    requires
        0 <= i < items.len(),
    ensures
        bviews(items.take(i + 1)) == bviews(items.take(i)).push(bview(items[i])),
{
    let a = items.take(i + 1);
    let b = items.take(i);
    lemma_bviews_len(a);
    lemma_bviews_len(b);
    assert forall|j: int| 0 <= j < a.len() implies #[trigger] bviews(a)[j] == bview(items[j]) by {
        lemma_bviews_index(a, j);
    }
    assert forall|j: int| 0 <= j < b.len() implies #[trigger] bviews(b)[j] == bview(items[j]) by {
        lemma_bviews_index(b, j);
    }
    assert(bviews(a) =~= bviews(b).push(bview(items[i])));
}

proof fn lemma_bpair_views_take_push_idx(pairs: Seq<(Vec<u8>, Bencode)>, i: int)
    requires
        0 <= i < pairs.len(),
    ensures
        bpair_views(pairs.take(i + 1)) == bpair_views(pairs.take(i)).push(
            (pairs[i].0@, bview(pairs[i].1)),
        ),
{
    let a = pairs.take(i + 1);
    let b = pairs.take(i);
    lemma_bpair_views_len(a);
    lemma_bpair_views_len(b);
    assert forall|j: int| 0 <= j < a.len() implies #[trigger] bpair_views(a)[j] == (
        pairs[j].0@,
        bview(pairs[j].1),
    ) by {
        lemma_bpair_views_index(a, j);
    }
    assert forall|j: int| 0 <= j < b.len() implies #[trigger] bpair_views(b)[j] == (
        pairs[j].0@,
        bview(pairs[j].1),
    ) by {
        lemma_bpair_views_index(b, j);
    }
    assert(bpair_views(a) =~= bpair_views(b).push((pairs[i].0@, bview(pairs[i].1))));
}

/// Conversion of a value into its bencoded form.
pub trait ToBencode {
    /// The mathematical value this converts to.
    spec fn spec_bencode(&self) -> BValue;

    fn to_bencode(&self) -> (r: Bencode)
        ensures
            r@ == self.spec_bencode(),
    ;
}

impl ToBencode for String {
    open spec fn spec_bencode(&self) -> BValue {
        BValue::Str(vstd::utf8::encode_utf8(self@))
    }

    fn to_bencode(&self) -> (r: Bencode) {
        Bencode::BString(self.as_str().as_bytes_vec())
    }
}

impl ToBencode for i64 {
    open spec fn spec_bencode(&self) -> BValue {
        BValue::Int(*self as int)
    }

    fn to_bencode(&self) -> (r: Bencode) {
        Bencode::BNumber(*self)
    }
}

impl ToBencode for u64 {
    open spec fn spec_bencode(&self) -> BValue {
        BValue::Int((*self as i64) as int)
    }

    fn to_bencode(&self) -> (r: Bencode) {
        Bencode::BNumber(#[verifier::truncate] (*self as i64))
    }
}

impl ToBencode for u32 {
    open spec fn spec_bencode(&self) -> BValue {
        BValue::Int(*self as int)
    }

    fn to_bencode(&self) -> (r: Bencode) {
        Bencode::BNumber(*self as i64)
    }
}

impl ToBencode for u16 {
    open spec fn spec_bencode(&self) -> BValue {
        BValue::Int(*self as int)
    }

    fn to_bencode(&self) -> (r: Bencode) {
        Bencode::BNumber(*self as i64)
    }
}

impl ToBencode for i32 {
    open spec fn spec_bencode(&self) -> BValue {
        BValue::Int(*self as int)
    }

    fn to_bencode(&self) -> (r: Bencode) {
        Bencode::BNumber(*self as i64)
    }
}

impl ToBencode for Vec<u8> {
    open spec fn spec_bencode(&self) -> BValue {
        BValue::Str(self@)
    }

    fn to_bencode(&self) -> (r: Bencode) {
        let mut out: Vec<u8> = Vec::new();
        push_bytes(&mut out, self.as_slice());
        assert(out@ =~= self@);
        Bencode::BString(out)
    }
}

impl<T: ToBencode> ToBencode for Vec<T> {
    open spec fn spec_bencode(&self) -> BValue {
        BValue::List(Seq::new(self@.len(), |i: int| self@[i].spec_bencode()))
    }

    fn to_bencode(&self) -> (r: Bencode) {
        let mut items: Vec<Bencode> = Vec::new();
        let mut i: usize = 0;
        while i < self.len()
            invariant
                i <= self@.len(),
                items@.len() == i,
                bviews(items@) == Seq::new(i as nat, |j: int| self@[j].spec_bencode()),
            decreases self@.len() - i,
        {
            let b = self[i].to_bencode();
            let ghost prev = items@;
            items.push(b);
            proof {
                lemma_bviews_push_general(prev, b);
                assert(bviews(items@) =~= Seq::new(
                    (i + 1) as nat,
                    |j: int| self@[j].spec_bencode(),
                ));
            }
            i = i + 1;
        }
        assert(bviews(items@) =~= Seq::new(self@.len(), |j: int| self@[j].spec_bencode()));
        Bencode::BList(items)
    }
}

impl ToBencode for Bencode {
    open spec fn spec_bencode(&self) -> BValue {
        bview(*self)
    }

    fn to_bencode(&self) -> (r: Bencode) {
        self.clone()
    }
}

impl Clone for Bencode {
    /// Deep copy with an identical mathematical value.
    fn clone(&self) -> (r: Bencode)
        ensures
            r@ == self@,
    {
        Bencode::clone_value(self)
    }
}

impl Bencode {
    fn clone_value(b: &Bencode) -> (r: Bencode)
        ensures
            r@ == b@,
        decreases *b,
    {
        match b {
            Bencode::BNumber(n) => Bencode::BNumber(*n),
            Bencode::BString(s) => {
                let mut out: Vec<u8> = Vec::new();
                push_bytes(&mut out, s.as_slice());
                assert(out@ =~= s@);
                Bencode::BString(out)
            },
            Bencode::BList(items) => {
                let mut out: Vec<Bencode> = Vec::new();
                let mut i: usize = 0;
                while i < items.len()
                    invariant
                        *b == Bencode::BList(*items),
                        i <= items@.len(),
                        bviews(out@) == bviews(items@.take(i as int)),
                        out@.len() == i,
                    decreases items@.len() - i,
                {
                    proof {
                        assert(decreases_to!(*b => b->BList_0));
                        vstd::std_specs::vec::axiom_vec_index_decreases(*items, i as int);
                    }
                    let c = Bencode::clone_value(&items[i]);
                    let ghost prev = out@;
                    out.push(c);
                    proof {
                        lemma_bviews_take_push(items@, i as int);
                        lemma_bviews_push_general(prev, c);
                    }
                    i = i + 1;
                    assert(bviews(out@) =~= bviews(items@.take(i as int)));
                }
                assert(items@.take(items@.len() as int) =~= items@);
                Bencode::BList(out)
            },
            Bencode::BDict(pairs) => {
                let mut out: Vec<(Vec<u8>, Bencode)> = Vec::new();
                let mut i: usize = 0;
                while i < pairs.len()
                    invariant
                        *b == Bencode::BDict(*pairs),
                        i <= pairs@.len(),
                        bpair_views(out@) == bpair_views(pairs@.take(i as int)),
                        out@.len() == i,
                    decreases pairs@.len() - i,
                {
                    let mut kc: Vec<u8> = Vec::new();
                    push_bytes(&mut kc, pairs[i].0.as_slice());
                    proof {
                        assert(decreases_to!(*b => b->BDict_0));
                        vstd::std_specs::vec::axiom_vec_index_decreases(*pairs, i as int);
                        assert(decreases_to!(pairs@[i as int] => pairs@[i as int].1));
                    }
                    let vc = Bencode::clone_value(&pairs[i].1);
                    let ghost prev = out@;
                    let ghost kcs = kc@;
                    let ghost vcv = bview(vc);
                    out.push((kc, vc));
                    proof {
                        assert(kcs =~= pairs@[i as int].0@);
                        lemma_bpair_views_take_push_idx(pairs@, i as int);
                        lemma_bpair_views_take_push(prev, out@, kcs, vcv);
                    }
                    i = i + 1;
                    assert(bpair_views(out@) =~= bpair_views(pairs@.take(i as int)));
                }
                assert(pairs@.take(pairs@.len() as int) =~= pairs@);
                Bencode::BDict(out)
            },
        }
    }
}

pub proof fn lemma_bviews_push_general(items: Seq<Bencode>, b: Bencode)
    ensures
        bviews(items.push(b)) == bviews(items).push(bview(b)),
{
    let a = items.push(b);
    lemma_bviews_len(a);
    lemma_bviews_len(items);
    assert forall|j: int| 0 <= j < a.len() implies #[trigger] bviews(a)[j] == bview(a[j]) by {
        lemma_bviews_index(a, j);
    }
    assert forall|j: int| 0 <= j < items.len() implies #[trigger] bviews(items)[j] == bview(
        items[j],
    ) by {
        lemma_bviews_index(items, j);
    }
    assert(bviews(a) =~= bviews(items).push(bview(b)));
}

impl Bencode {
    /// Encodes a well-formed value into its canonical bencoded bytes:
    /// dictionaries must already carry their keys in sorted order, as
    /// every value this crate builds or decodes does.
    pub fn encode<T: ToBencode>(value: &T) -> (r: Vec<u8>)
        requires
            bval_wf(value.spec_bencode()),
        ensures
            r@ == spec_encode(value.spec_bencode()),
    {
        let bencode = value.to_bencode();
        Bencode::do_encode(bencode)
    }

    fn do_encode(bencode: Bencode) -> (r: Vec<u8>)
        requires
            bval_wf(bencode@),
        ensures
            r@ == spec_encode(bencode@),
    {
        let mut out: Vec<u8> = Vec::new();
        Bencode::encode_value(&bencode, &mut out);
        out
    }

    fn encode_value(b: &Bencode, out: &mut Vec<u8>)
        requires
            bval_wf(bview(*b)),
        ensures
            final(out)@ == old(out)@ + spec_encode(bview(*b)),
        decreases *b,
    {
        let ghost entry = out@;
        match b {
            Bencode::BNumber(n) => {
                out.push(105);
                let digits = i64_digits(*n);
                push_bytes(out, digits.as_slice());
                out.push(101);
                assert(out@ =~= entry + spec_encode(bview(*b)));
            },
            Bencode::BString(s) => {
                let digits = u64_digits(s.len() as u64);
                push_bytes(out, digits.as_slice());
                out.push(58);
                push_bytes(out, s.as_slice());
                assert(out@ =~= entry + spec_encode(bview(*b)));
            },
            Bencode::BList(items) => {
                out.push(108);
                let mut i: usize = 0;
                while i < items.len()
                    invariant
                        *b == Bencode::BList(*items),
                        bval_wf(bview(*b)),
                        i <= items@.len(),
                        out@ == entry + seq![108u8] + spec_encode_items(
                            bviews(items@.take(i as int)),
                        ),
                    decreases items@.len() - i,
                {
                    proof {
                        assert(decreases_to!(*b => b->BList_0));
                        vstd::std_specs::vec::axiom_vec_index_decreases(*items, i as int);
                        assert(bview(*b) == BValue::List(bviews(items@)));
                        lemma_bviews_index(items@, i as int);
                        lemma_wf_list_elem(bviews(items@), i as int);
                    }
                    Bencode::encode_value(&items[i], out);
                    proof {
                        lemma_bviews_take_push(items@, i as int);
                        lemma_encode_items_push(bviews(items@.take(i as int)), bview(items@[i as int]));
                    }
                    i = i + 1;
                    assert(out@ =~= entry + seq![108u8] + spec_encode_items(
                        bviews(items@.take(i as int)),
                    ));
                }
                out.push(101);
                assert(items@.take(items@.len() as int) =~= items@);
                assert(out@ =~= entry + spec_encode(bview(*b)));
            },
            Bencode::BDict(pairs) => {
                out.push(100);
                let mut i: usize = 0;
                while i < pairs.len()
                    invariant
                        *b == Bencode::BDict(*pairs),
                        bval_wf(bview(*b)),
                        i <= pairs@.len(),
                        out@ == entry + seq![100u8] + spec_encode_entries(
                            bpair_views(pairs@.take(i as int)),
                        ),
                    decreases pairs@.len() - i,
                {
                    let digits = u64_digits(pairs[i].0.len() as u64);
                    push_bytes(out, digits.as_slice());
                    out.push(58);
                    push_bytes(out, pairs[i].0.as_slice());
                    proof {
                        assert(decreases_to!(*b => b->BDict_0));
                        vstd::std_specs::vec::axiom_vec_index_decreases(*pairs, i as int);
                        assert(decreases_to!(pairs@[i as int] => pairs@[i as int].1));
                        assert(bview(*b) == BValue::Dict(bpair_views(pairs@)));
                        lemma_bpair_views_index(pairs@, i as int);
                        lemma_wf_dict_entry(bpair_views(pairs@), i as int);
                    }
                    Bencode::encode_value(&pairs[i].1, out);
                    proof {
                        lemma_bpair_views_take_push_idx(pairs@, i as int);
                        lemma_encode_entries_push(
                            bpair_views(pairs@.take(i as int)),
                            pairs@[i as int].0@,
                            bview(pairs@[i as int].1),
                        );
                    }
                    i = i + 1;
                    assert(out@ =~= entry + seq![100u8] + spec_encode_entries(
                        bpair_views(pairs@.take(i as int)),
                    ));
                }
                out.push(101);
                assert(pairs@.take(pairs@.len() as int) =~= pairs@);
                assert(out@ =~= entry + spec_encode(bview(*b)));
            },
        }
    }
}

/// If `b` first occurs in `s` at index `i`, `find_byte` returns `i`;
/// if it never occurs, `find_byte` returns nothing.
pub proof fn lemma_find_byte_first(s: Seq<u8>, b: u8, i: int)
    requires
        0 <= i <= s.len(),
        forall|j: int| 0 <= j < i ==> s[j] != b,
    ensures
        i < s.len() && s[i] == b ==> find_byte(s, b) == Some(i),
        i == s.len() ==> find_byte(s, b) is None,
    decreases i,
{
    if i > 0 {
        assert(s[0] != b);
        let t = s.drop_first();
        assert(forall|j: int| 0 <= j < i - 1 ==> #[trigger] t[j] == s[j + 1]);
        lemma_find_byte_first(t, b, i - 1);
        if i < s.len() && s[i] == b {
            assert(t[i - 1] == b);
        }
    }
}

impl Bencode {
    /// Parses bencoded bytes into a `Bencode` value, consuming a prefix of
    /// the input and ignoring any trailing bytes.
    ///
    /// Returns `Ok` exactly when a well-formed bencoded value starts at
    /// offset zero; the result is that value, always well-formed, with
    /// every dictionary key-sorted. Empty input fails with
    /// `InvalidBencode`.
    pub fn decode(data: &[u8]) -> (r: Result<Bencode, BencodeError>)
        ensures
            match r {
                Ok(v) => spec_decode(data@) matches Some(p) && p.0 == v@ && bval_wf(v@)
                    && bval_bounded(v@),
                Err(_) => spec_decode(data@) is None,
            },
            data@.len() == 0 ==> r == Err::<Bencode, BencodeError>(BencodeError::InvalidBencode),
    {
        proof {
            assert(data@.skip(0) =~= data@);
        }
        match Bencode::do_decode(data, 0) {
            Ok(p) => Ok(p.0),
            Err(e) => Err(e),
        }
    }

    /// Decodes the value starting at `pos`, returning it and the offset
    /// just past it.
    fn do_decode(data: &[u8], pos: usize) -> (r: Result<(Bencode, usize), BencodeError>)
        requires
            pos <= data@.len(),
        ensures
            match r {
                Ok(p) => pos < p.1 <= data@.len() && spec_decode(data@.skip(pos as int))
                    == Some((p.0@, p.1 - pos)) && bval_wf(p.0@) && bval_bounded(p.0@),
                Err(_) => spec_decode(data@.skip(pos as int)) is None,
            },
            (pos == data@.len() || !(data@[pos as int] == 105 || data@[pos as int] == 108
                || data@[pos as int] == 100 || is_digit(data@[pos as int]))) ==> r
                == Err::<(Bencode, usize), BencodeError>(BencodeError::InvalidBencode),
        decreases data@.len() - pos, 1int,
    {
        if pos >= data.len() {
            return Err(BencodeError::InvalidBencode);
        }
        let b = data[pos];
        if b == 105 {
            Bencode::decode_number(data, pos)
        } else if b == 108 {
            Bencode::decode_list(data, pos)
        } else if b == 100 {
            Bencode::decode_dict(data, pos)
        } else if 48 <= b && b <= 57 {
            Bencode::decode_string(data, pos)
        } else {
            Err(BencodeError::InvalidBencode)
        }
    }

    /// Decodes `i<decimal>e` starting at `pos`.
    fn decode_number(data: &[u8], pos: usize) -> (r: Result<(Bencode, usize), BencodeError>)
        requires
            pos < data@.len(),
            data@[pos as int] == 105,
        ensures
            match r {
                Ok(p) => pos < p.1 <= data@.len() && spec_decode(data@.skip(pos as int))
                    == Some((p.0@, p.1 - pos)) && bval_wf(p.0@) && bval_bounded(p.0@),
                Err(_) => spec_decode(data@.skip(pos as int)) is None,
            },
        decreases data@.len() - pos, 0int,
    {
        let len = data.len();
        let ghost sub = data@.skip(pos as int);
        let ghost tail = data@.skip(pos + 1);
        proof {
            assert(sub.drop_first() =~= tail);
        }
        let mut i: usize = pos + 1;
        while i < len && data[i] != 101
            invariant
                pos + 1 <= i <= len,
                len == data@.len(),
                forall|j: int| pos + 1 <= j < i ==> data@[j] != 101,
            decreases len - i,
        {
            i = i + 1;
        }
        proof {
            assert(forall|j: int| 0 <= j < i - pos - 1 ==> #[trigger] tail[j] == data@[j + pos + 1]);
            lemma_find_byte_first(tail, 101, i - pos - 1);
        }
        if i >= len {
            return Err(BencodeError::InvalidBencodeNumber);
        }
        let number = parse_i64(&data[pos + 1..i]);
        proof {
            assert(data@.subrange(pos + 1, i as int) =~= sub.subrange(1, 1 + (i - pos - 1)));
        }
        match number {
            Some(n) => {
                proof {
                    assert(spec_decode(sub) == Some((BValue::Int(n as int), (i - pos - 1) + 2)));
                }
                Ok((Bencode::BNumber(n), i + 1))
            },
            None => Err(BencodeError::InvalidBencodeNumber),
        }
    }

    /// Decodes `<len>:<bytes>` starting at `pos`.
    fn decode_string(data: &[u8], pos: usize) -> (r: Result<(Bencode, usize), BencodeError>)
        requires
            pos < data@.len(),
            is_digit(data@[pos as int]),
        ensures
            match r {
                Ok(p) => pos < p.1 <= data@.len() && spec_decode(data@.skip(pos as int))
                    == Some((p.0@, p.1 - pos)) && bval_wf(p.0@) && bval_bounded(p.0@),
                Err(_) => spec_decode(data@.skip(pos as int)) is None,
            },
        decreases data@.len() - pos, 0int,
    {
        let len = data.len();
        let ghost sub = data@.skip(pos as int);
        let mut i: usize = pos;
        while i < len && data[i] != 58
            invariant
                pos <= i <= len,
                len == data@.len(),
                forall|j: int| pos <= j < i ==> data@[j] != 58,
            decreases len - i,
        {
            i = i + 1;
        }
        proof {
            assert(forall|j: int| 0 <= j < i - pos ==> #[trigger] sub[j] == data@[j + pos]);
            lemma_find_byte_first(sub, 58, i - pos);
        }
        if i >= len {
            return Err(BencodeError::InvalidBencodeString);
        }
        let ghost j = i - pos;
        let number = parse_i64(&data[pos..i]);
        proof {
            assert(data@.subrange(pos as int, i as int) =~= sub.take(j as int));
        }
        let n = match number {
            Some(n) => n,
            None => {
                return Err(BencodeError::InvalidBencodeString);
            },
        };
        if n < 0 {
            return Err(BencodeError::InvalidBencodeString);
        }
        if (n as u64) > (len as u64) - ((i + 1) as u64) {
            return Err(BencodeError::InvalidBencodeString);
        }
        let count = n as usize;
        let mut s: Vec<u8> = Vec::new();
        let mut k: usize = 0;
        while k < count
            invariant
                k <= count,
                count == n as int,
                n >= 0,
                i + 1 + count <= len,
                len == data@.len(),
                s@ == data@.subrange(i + 1, i + 1 + k),
            decreases count - k,
        {
            s.push(data[i + 1 + k]);
            k = k + 1;
            assert(s@ =~= data@.subrange(i + 1, i + 1 + k));
        }
        proof {
            assert(sub.subrange(j + 1, j + 1 + n) =~= data@.subrange(i + 1, i + 1 + n));
            assert(spec_decode(sub) == Some((BValue::Str(s@), j + 1 + n)));
        }
        Ok((Bencode::BString(s), i + 1 + count))
    }

    /// Decodes `l<items>e` starting at `pos`.
    fn decode_list(data: &[u8], pos: usize) -> (r: Result<(Bencode, usize), BencodeError>)
        requires
            pos < data@.len(),
            data@[pos as int] == 108,
        ensures
            match r {
                Ok(p) => pos < p.1 <= data@.len() && spec_decode(data@.skip(pos as int))
                    == Some((p.0@, p.1 - pos)) && bval_wf(p.0@) && bval_bounded(p.0@),
                Err(_) => spec_decode(data@.skip(pos as int)) is None,
            },
        decreases data@.len() - pos, 0int,
    {
        let len = data.len();
        let mut i: usize = pos + 1;
        let mut items: Vec<Bencode> = Vec::new();
        while i < len && data[i] != 101
            invariant
                pos + 1 <= i <= len,
                len == data@.len(),
                pos < len,
                data@[pos as int] == 108,
                bviews(items@).len() == items@.len(),
                forall|j: int|
                    0 <= j < bviews(items@).len() ==> bval_wf(#[trigger] bviews(items@)[j]),
                forall|j: int|
                    0 <= j < bviews(items@).len() ==> bval_bounded(#[trigger] bviews(items@)[j]),
                match spec_decode_items(data@.skip(i as int), bviews(items@)) {
                    Some(p) => spec_decode_items(data@.skip(pos + 1), Seq::empty()) == Some(
                        (p.0, p.1 + (i - pos - 1)),
                    ),
                    None => spec_decode_items(data@.skip(pos + 1), Seq::empty()) is None,
                },
            decreases len - i,
        {
            match Bencode::do_decode(data, i) {
                Ok(p) => {
                    let (v, end) = p;
                    proof {
                        assert(data@.skip(i as int)[0] == data@[i as int]);
                        assert(data@.skip(i as int).skip((end - i) as int) =~= data@.skip(
                            end as int,
                        ));
                        lemma_bviews_push_general(items@, v);
                    }
                    items.push(v);
                    i = end;
                },
                Err(e) => {
                    proof {
                        assert(data@.skip(i as int)[0] == data@[i as int]);
                        assert(data@.skip(pos as int)[0] == 108);
                        assert(data@.skip(pos as int).drop_first() =~= data@.skip(pos + 1));
                    }
                    return Err(e);
                },
            }
        }
        if i >= len {
            proof {
                assert(data@.skip(i as int).len() == 0);
                assert(data@.skip(pos as int)[0] == 108);
                assert(data@.skip(pos as int).drop_first() =~= data@.skip(pos + 1));
            }
            return Err(BencodeError::InvalidBencodeList);
        }
        proof {
            assert(data@.skip(i as int)[0] == data@[i as int]);
            assert(spec_decode_items(data@.skip(i as int), bviews(items@)) == Some(
                (bviews(items@), 1int),
            ));
            assert(spec_decode(data@.skip(pos as int)) == Some(
                (BValue::List(bviews(items@)), 1 + (i - pos)),
            )) by {
                assert(data@.skip(pos as int)[0] == 108);
                assert(data@.skip(pos as int).drop_first() =~= data@.skip(pos + 1));
            }
        }
        Ok((Bencode::BList(items), i + 1))
    }

    /// Decodes `d<key><value>...e` starting at `pos`, collecting entries
    /// key-sorted with the last binding of a repeated key winning.
    fn decode_dict(data: &[u8], pos: usize) -> (r: Result<(Bencode, usize), BencodeError>)
        requires
            pos < data@.len(),
            data@[pos as int] == 100,
        ensures
            match r {
                Ok(p) => pos < p.1 <= data@.len() && spec_decode(data@.skip(pos as int))
                    == Some((p.0@, p.1 - pos)) && bval_wf(p.0@) && bval_bounded(p.0@),
                Err(_) => spec_decode(data@.skip(pos as int)) is None,
            },
        decreases data@.len() - pos, 0int,
    {
        let len = data.len();
        let mut i: usize = pos + 1;
        let mut dict: Vec<(Vec<u8>, Bencode)> = Vec::new();
        while i < len && data[i] != 101
            invariant
                pos + 1 <= i <= len,
                len == data@.len(),
                pos < len,
                data@[pos as int] == 100,
                bpair_views(dict@).len() == dict@.len(),
                entries_sorted(bpair_views(dict@)),
                entries_values_wf(bpair_views(dict@)),
                entries_keys_bounded(bpair_views(dict@)),
                entries_values_bounded(bpair_views(dict@)),
                match spec_decode_entries(data@.skip(i as int), bpair_views(dict@)) {
                    Some(p) => spec_decode_entries(data@.skip(pos + 1), Seq::empty()) == Some(
                        (p.0, p.1 + (i - pos - 1)),
                    ),
                    None => spec_decode_entries(data@.skip(pos + 1), Seq::empty()) is None,
                },
            decreases len - i,
        {
            let ghost dv0 = bpair_views(dict@);
            let key_end: usize;
            let key_bytes: Vec<u8>;
            match Bencode::do_decode(data, i) {
                Ok(p) => {
                    proof {
                        assert(data@.skip(i as int)[0] == data@[i as int]);
                    }
                    match p.0 {
                        Bencode::BString(kb) => {
                            key_bytes = kb;
                            key_end = p.1;
                        },
                        _ => {
                            proof {
                                assert(!(bview(p.0) matches BValue::Str(_)));
                                assert(data@.skip(pos as int)[0] == 100);
                                assert(data@.skip(pos as int).drop_first() =~= data@.skip(pos + 1));
                            }
                            return Err(BencodeError::InvalidBencodeDict);
                        },
                    }
                },
                Err(e) => {
                    proof {
                        assert(data@.skip(i as int)[0] == data@[i as int]);
                        assert(data@.skip(pos as int)[0] == 100);
                        assert(data@.skip(pos as int).drop_first() =~= data@.skip(pos + 1));
                    }
                    return Err(e);
                },
            }
            proof {
                assert(data@.skip(i as int).skip((key_end - i) as int) =~= data@.skip(
                    key_end as int,
                ));
            }
            match Bencode::do_decode(data, key_end) {
                Ok(p2) => {
                    let (v, end) = p2;
                    proof {
                        assert(data@.skip(key_end as int).skip((end - key_end) as int)
                            =~= data@.skip(end as int));
                    }
                    dict_put(&mut dict, key_bytes, v);
                    proof {
                        lemma_bpair_views_len(dict@);
                        assert(data@.skip(i as int).skip((end - i) as int) =~= data@.skip(
                            end as int,
                        ));
                    }
                    i = end;
                },
                Err(e) => {
                    proof {
                        assert(data@.skip(pos as int)[0] == 100);
                        assert(data@.skip(pos as int).drop_first() =~= data@.skip(pos + 1));
                    }
                    return Err(e);
                },
            }
        }
        if i >= len {
            proof {
                assert(data@.skip(i as int).len() == 0);
                assert(data@.skip(pos as int)[0] == 100);
                assert(data@.skip(pos as int).drop_first() =~= data@.skip(pos + 1));
            }
            return Err(BencodeError::InvalidBencodeDict);
        }
        proof {
            assert(data@.skip(i as int)[0] == data@[i as int]);
            assert(spec_decode_entries(data@.skip(i as int), bpair_views(dict@)) == Some(
                (bpair_views(dict@), 1int),
            ));
            assert(spec_decode(data@.skip(pos as int)) == Some(
                (BValue::Dict(bpair_views(dict@)), 1 + (i - pos)),
            )) by {
                assert(data@.skip(pos as int)[0] == 100);
                assert(data@.skip(pos as int).drop_first() =~= data@.skip(pos + 1));
            }
        }
        Ok((Bencode::BDict(dict), i + 1))
    }
}

/// The first byte of any encoding is never the end marker 'e'.
pub proof fn lemma_encode_lead(v: BValue)
    ensures
        spec_encode(v).len() >= 1,
        spec_encode(v)[0] != 101,
{
    match v {
        BValue::Int(n) => {
            assert(spec_encode(v)[0] == 105);
        },
        BValue::Str(s) => {
            lemma_nat_digits_shape(s.len() as int);
            assert(spec_encode(v)[0] == nat_digits(s.len() as int)[0]);
        },
        BValue::List(items) => {
            assert(spec_encode(v)[0] == 108);
        },
        BValue::Dict(entries) => {
            assert(spec_encode(v)[0] == 100);
        },
    }
}

/// Round trip for integers: `i<dec>e` followed by anything decodes back.
proof fn lemma_round_trip_int(n: int, rest: Seq<u8>)
    requires
        i64::MIN <= n <= i64::MAX,
    ensures
        spec_decode(seq![105u8] + int_digits(n) + seq![101u8] + rest) == Some(
            (BValue::Int(n), int_digits(n).len() as int + 2),
        ),
{
    let d = int_digits(n);
    let data = seq![105u8] + d + seq![101u8] + rest;
    assert(data[0] == 105);
    let tail = data.drop_first();
    assert(tail =~= d + seq![101u8] + rest);
    lemma_int_digits_shape(n);
    assert(forall|j: int| 0 <= j < d.len() ==> #[trigger] tail[j] == d[j]);
    assert(forall|j: int| 0 <= j < d.len() ==> tail[j] != 101);
    assert(tail[d.len() as int] == 101);
    lemma_find_byte_first(tail, 101, d.len() as int);
    assert(find_byte(tail, 101) == Some(d.len() as int));
    assert(data.subrange(1, 1 + d.len() as int) =~= d);
    lemma_parse_int_digits(n);
    assert(spec_decode(data) == Some((BValue::Int(n), d.len() as int + 2)));
}

/// Round trip for byte strings: `<len>:<bytes>` followed by anything
/// decodes back.
proof fn lemma_round_trip_str(s: Seq<u8>, rest: Seq<u8>)
    requires
        s.len() <= i64::MAX,
    ensures
        spec_decode(spec_encode_str(s) + rest) == Some(
            (BValue::Str(s), spec_encode_str(s).len() as int),
        ),
{
    let ls = s.len() as int;
    let nd = nat_digits(ls);
    let data = spec_encode_str(s) + rest;
    lemma_nat_digits_shape(ls);
    assert(data[0] == nd[0]);
    assert(is_digit(data[0]));
    assert(forall|j: int| 0 <= j < nd.len() ==> #[trigger] data[j] == nd[j]);
    assert(forall|j: int| 0 <= j < nd.len() ==> data[j] != 58);
    assert(data[nd.len() as int] == 58);
    lemma_find_byte_first(data, 58, nd.len() as int);
    assert(find_byte(data, 58) == Some(nd.len() as int));
    assert(data.take(nd.len() as int) =~= nd);
    lemma_parse_int_digits(ls);
    assert(parse_int(data.take(nd.len() as int)) == Some(ls));
    assert(data.subrange(nd.len() as int + 1, nd.len() as int + 1 + ls) =~= s);
    assert(spec_decode(data) == Some((BValue::Str(s), nd.len() as int + 1 + ls)));
}

/// Appending past every existing key is a plain push.
proof fn lemma_dict_insert_append(acc: Seq<(Seq<u8>, BValue)>, k: Seq<u8>, v: BValue)
    requires
        forall|a: int| 0 <= a < acc.len() ==> lex_lt(#[trigger] acc[a].0, k),
    ensures
        dict_insert(acc, k, v) == acc + seq![(k, v)],
{
    lemma_dict_insert_split(acc, k, v, acc.len() as int);
    assert(acc.skip(acc.len() as int) =~= Seq::empty());
    assert(acc.take(acc.len() as int) =~= acc);
    assert(dict_insert(Seq::empty(), k, v) == seq![(k, v)]);
}

/// Decoding the encoded items of a list appends them to the accumulator
/// and stops at the end marker.
proof fn lemma_items_round(items: Seq<BValue>, acc: Seq<BValue>, rest: Seq<u8>)
    requires
        forall|i: int| 0 <= i < items.len() ==> bval_wf(#[trigger] items[i]),
        forall|i: int| 0 <= i < items.len() ==> bval_bounded(#[trigger] items[i]),
    ensures
        spec_decode_items(spec_encode_items(items) + seq![101u8] + rest, acc) == Some(
            (acc + items, spec_encode_items(items).len() as int + 1),
        ),
    decreases items, 0int,
{
    let data = spec_encode_items(items) + seq![101u8] + rest;
    if items.len() == 0 {
        assert(data[0] == 101);
        assert(acc + items =~= acc);
        assert(spec_decode_items(data, acc) == Some((acc, 1int)));
    } else {
        let v0 = items[0];
        let tail_items = items.subrange(1, items.len() as int);
        assert(items.drop_first() == tail_items);
        let e0 = spec_encode(v0);
        let erest = spec_encode_items(tail_items);
        let rest2 = erest + seq![101u8] + rest;
        assert(data =~= e0 + rest2);
        lemma_encode_lead(v0);
        assert(data[0] == e0[0]);
        assert(decreases_to!(items => items[0]));
        lemma_codec_round_trip(v0, rest2);
        assert(spec_decode(data) == Some((v0, e0.len() as int)));
        let n = e0.len() as int;
        assert(1 <= n <= data.len());
        assert(data.skip(n) =~= rest2);
        assert forall|i: int| 0 <= i < tail_items.len() implies bval_wf(
            #[trigger] tail_items[i],
        ) by {
            assert(tail_items[i] == items[i + 1]);
        }
        assert forall|i: int| 0 <= i < tail_items.len() implies bval_bounded(
            #[trigger] tail_items[i],
        ) by {
            assert(tail_items[i] == items[i + 1]);
        }
        assert(decreases_to!(items => items.subrange(1, items.len() as int)));
        lemma_items_round(tail_items, acc.push(v0), rest);
        assert(spec_decode_items(data.skip(n), acc.push(v0)) == Some(
            (acc.push(v0) + tail_items, erest.len() as int + 1),
        ));
        assert(acc.push(v0) + tail_items =~= acc + items);
        assert(spec_decode_items(data, acc) == Some((acc + items, n + (erest.len() as int + 1))));
    }
}

/// Decoding the encoded entries of a sorted dictionary appends them to the
/// accumulator in order and stops at the end marker.
proof fn lemma_entries_round(entries: Seq<(Seq<u8>, BValue)>, acc: Seq<(Seq<u8>, BValue)>, rest: Seq<u8>)
    requires
        entries_sorted(entries),
        entries_keys_bounded(entries),
        forall|i: int| 0 <= i < entries.len() ==> bval_wf(#[trigger] entries[i].1),
        forall|i: int| 0 <= i < entries.len() ==> bval_bounded(#[trigger] entries[i].1),
        forall|a: int, e: int|
            0 <= a < acc.len() && 0 <= e < entries.len() ==> lex_lt(
                #[trigger] acc[a].0,
                #[trigger] entries[e].0,
            ),
    ensures
        spec_decode_entries(spec_encode_entries(entries) + seq![101u8] + rest, acc) == Some(
            (acc + entries, spec_encode_entries(entries).len() as int + 1),
        ),
    decreases entries, 0int,
{
    let data = spec_encode_entries(entries) + seq![101u8] + rest;
    if entries.len() == 0 {
        assert(data[0] == 101);
        assert(acc + entries =~= acc);
        assert(spec_decode_entries(data, acc) == Some((acc, 1int)));
    } else {
        let pair = entries[0];
        let k0 = pair.0;
        let v0 = pair.1;
        let tail_entries = entries.subrange(1, entries.len() as int);
        assert(entries.drop_first() == tail_entries);
        let ek = spec_encode_str(k0);
        let ev = spec_encode(v0);
        let erest = spec_encode_entries(tail_entries);
        let rest_k = ev + (erest + seq![101u8] + rest);
        assert(data =~= ek + rest_k);
        lemma_nat_digits_shape(k0.len() as int);
        assert(data[0] == ek[0]);
        assert(is_digit(data[0]));
        lemma_round_trip_str(k0, rest_k);
        assert(spec_decode(data) == Some((BValue::Str(k0), ek.len() as int)));
        let n1 = ek.len() as int;
        assert(1 <= n1 <= data.len());
        let rest_v = erest + seq![101u8] + rest;
        assert(data.skip(n1) =~= ev + rest_v);
        assert(decreases_to!(entries => entries[0]));
        assert(decreases_to!(entries[0] => entries[0].1));
        lemma_codec_round_trip(v0, rest_v);
        assert(spec_decode(data.skip(n1)) == Some((v0, ev.len() as int)));
        let n2 = ev.len() as int;
        lemma_encode_lead(v0);
        assert(1 <= n2 <= data.len() - n1);
        assert(data.skip(n1 + n2) =~= rest_v) by {
            assert(data.skip(n1).skip(n2) =~= rest_v);
            assert(data.skip(n1).skip(n2) =~= data.skip(n1 + n2));
        }
        assert forall|a: int| 0 <= a < acc.len() implies lex_lt(#[trigger] acc[a].0, k0) by {
            assert(lex_lt(acc[a].0, entries[0].0));
        }
        lemma_dict_insert_append(acc, k0, v0);
        assert((k0, v0) == pair);
        assert(dict_insert(acc, k0, v0) =~= acc.push(pair));
        assert forall|i: int| 0 <= i < tail_entries.len() implies bval_wf(
            #[trigger] tail_entries[i].1,
        ) by {
            assert(tail_entries[i] == entries[i + 1]);
        }
        assert forall|i: int| 0 <= i < tail_entries.len() implies bval_bounded(
            #[trigger] tail_entries[i].1,
        ) by {
            assert(tail_entries[i] == entries[i + 1]);
        }
        assert(entries_sorted(tail_entries)) by {
            assert forall|i: int, j: int| 0 <= i < j < tail_entries.len() implies lex_lt(
                #[trigger] tail_entries[i].0,
                #[trigger] tail_entries[j].0,
            ) by {
                assert(tail_entries[i] == entries[i + 1]);
                assert(tail_entries[j] == entries[j + 1]);
            }
        }
        assert(entries_keys_bounded(tail_entries)) by {
            assert forall|i: int| 0 <= i < tail_entries.len() implies #[trigger] tail_entries[i].0.len()
                <= i64::MAX by {
                assert(tail_entries[i] == entries[i + 1]);
            }
        }
        let acc2 = acc.push(pair);
        assert forall|a: int, e: int|
            0 <= a < acc2.len() && 0 <= e < tail_entries.len() implies lex_lt(
            #[trigger] acc2[a].0,
            #[trigger] tail_entries[e].0,
        ) by {
            assert(tail_entries[e] == entries[e + 1]);
            if a < acc.len() {
                assert(lex_lt(acc[a].0, entries[e + 1].0));
            } else {
                assert(acc2[a] == pair);
                assert(lex_lt(entries[0].0, entries[e + 1].0));
            }
        }
        assert(decreases_to!(entries => entries.subrange(1, entries.len() as int)));
        lemma_entries_round(tail_entries, acc2, rest);
        assert(spec_decode_entries(data.skip(n1 + n2), acc2) == Some(
            (acc2 + tail_entries, erest.len() as int + 1),
        ));
        assert(acc2 + tail_entries =~= acc + entries);
        assert(spec_decode_entries(data, acc) == Some((acc + entries, n1 + n2 + (erest.len() as int + 1))));
    }
}

/// Codec round trip: the canonical encoding of any well-formed value,
/// followed by arbitrary trailing bytes, decodes back to exactly that
/// value, consuming exactly the encoding. Values the decoder itself
/// produces are always well-formed.
pub proof fn lemma_codec_round_trip(v: BValue, rest: Seq<u8>)
    requires
        bval_wf(v),
        bval_bounded(v),
    ensures
        spec_decode(spec_encode(v) + rest) == Some((v, spec_encode(v).len() as int)),
    decreases v, 1int,
{
    let data = spec_encode(v) + rest;
    match v {
        BValue::Int(n) => {
            lemma_round_trip_int(n, rest);
            assert(data =~= seq![105u8] + int_digits(n) + seq![101u8] + rest);
            assert(spec_encode(v).len() == int_digits(n).len() + 2);
        },
        BValue::Str(s) => {
            lemma_round_trip_str(s, rest);
        },
        BValue::List(items) => {
            assert(decreases_to!(v => v->List_0));
            lemma_items_round(items, Seq::empty(), rest);
            assert(data[0] == 108);
            assert(data.drop_first() =~= spec_encode_items(items) + seq![101u8] + rest);
            assert(Seq::<BValue>::empty() + items =~= items);
            assert(spec_decode(data) == Some(
                (BValue::List(items), 1 + (spec_encode_items(items).len() as int + 1)),
            ));
        },
        BValue::Dict(entries) => {
            assert(decreases_to!(v => v->Dict_0));
            lemma_entries_round(entries, Seq::empty(), rest);
            assert(data[0] == 100);
            assert(data.drop_first() =~= spec_encode_entries(entries) + seq![101u8] + rest);
            assert(Seq::<(Seq<u8>, BValue)>::empty() + entries =~= entries);
            assert(spec_decode(data) == Some(
                (BValue::Dict(entries), 1 + (spec_encode_entries(entries).len() as int + 1)),
            ));
        },
    }
}

/// Codec round trip on exact input: `decode(encode(v)) = v` for every
/// well-formed value.
pub proof fn lemma_codec_round_trip_exact(v: BValue)
    requires
        bval_wf(v),
        bval_bounded(v),
    ensures
        spec_decode(spec_encode(v)) == Some((v, spec_encode(v).len() as int)),
{
    lemma_codec_round_trip(v, Seq::empty());
    assert(spec_encode(v) + Seq::<u8>::empty() =~= spec_encode(v));
}

/// Every well-formed dictionary is encoded with its keys in strictly
/// ascending byte order: the encoder writes entries in table order, and
/// well-formedness keeps that order sorted. The decoder only ever
/// produces well-formed values.
pub proof fn lemma_encode_emits_sorted_keys(entries: Seq<(Seq<u8>, BValue)>)
    requires
        bval_wf(BValue::Dict(entries)),
    ensures
        forall|i: int, j: int|
            0 <= i < j < entries.len() ==> lex_lt(#[trigger] entries[i].0, #[trigger] entries[j].0),
        spec_encode(BValue::Dict(entries)) == seq![100u8] + spec_encode_entries(entries)
            + seq![101u8],
{
}

} // verus!

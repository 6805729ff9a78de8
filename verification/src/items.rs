//! Catalog ids and item metadata.
//!
//! Catalog entries come in two kinds, plain items and trinkets. Their raw
//! numeric ids live in overlapping ranges, so trinket ids are shifted by a
//! fixed offset to give every catalog entry a unique id.

use vstd::prelude::*;

verus! {

/// Offset added to a trinket's raw id so that trinket ids and item ids
/// never collide.
pub const TRINKET_OFFSET: u32 = 10000;

/// The two kinds of catalog entries.
#[derive(Clone, Copy, Debug, PartialEq, Eq, Structural)]
pub enum ItemType {
    Item,
    Trinket,
}

/// The unique catalog id of an entry: trinket ids are shifted by
/// `TRINKET_OFFSET`, item ids are kept as they are.
pub open spec fn spec_uniq_id(item_type: ItemType, id: u32) -> int {
    match item_type {
        ItemType::Item => id as int,
        ItemType::Trinket => id + TRINKET_OFFSET,
    }
}

/// Maps a kind and a raw numeric id to the unique catalog id.
pub fn get_uniq_id(item_type: ItemType, id: u32) -> (r: u32)
    requires
        item_type is Trinket ==> id + TRINKET_OFFSET <= u32::MAX,
    ensures
        r == spec_uniq_id(item_type, id),
{
    match item_type {
        ItemType::Item => id,
        ItemType::Trinket => id + TRINKET_OFFSET,
    }
}

/// The separator of catalog file name segments: `_`.
pub const SEG_SEP: u8 = 95;

/// Whether a byte is an ASCII decimal digit.
pub open spec fn is_digit(b: u8) -> bool {
    48 <= b <= 57
}

/// Whether every byte of `s` is an ASCII decimal digit.
pub open spec fn all_digits(s: Seq<u8>) -> bool {
    forall|i: int| 0 <= i < s.len() ==> is_digit(#[trigger] s[i])
}

/// The number the digit string `s` denotes in decimal.
pub open spec fn digits_value(s: Seq<u8>) -> int
    decreases s.len(),
{
    if s.len() == 0 {
        0
    } else {
        digits_value(s.drop_last()) * 10 + (s.last() - 48)
    }
}

/// A digit string denotes a nonnegative number.
pub proof fn lemma_digits_nonneg(s: Seq<u8>)
    requires
        all_digits(s),
    ensures
        digits_value(s) >= 0,
    decreases s.len(),
{
    if s.len() > 0 {
        assert(all_digits(s.drop_last()));
        lemma_digits_nonneg(s.drop_last());
    }
}

/// The bytes of the kind segment that selects the trinket id range.
pub open spec fn trinket_kind_bytes() -> Seq<u8> {
    seq![116u8, 114u8, 105u8, 110u8, 107u8, 101u8, 116u8]
}

/// The three-segment shape of a catalog file name: exactly two separators,
/// standing at `p1` and `p2`.
pub open spec fn seg_shape(s: Seq<u8>, p1: int, p2: int) -> bool {
    &&& 0 <= p1 < p2 < s.len()
    &&& s[p1] == SEG_SEP
    &&& s[p2] == SEG_SEP
    &&& forall|j: int| 0 <= j < s.len() && j != p1 && j != p2 ==> s[j] != SEG_SEP
}

/// Whether a name splits into exactly three `_`-separated segments.
pub open spec fn three_segments(s: Seq<u8>) -> bool {
    exists|p1: int, p2: int| seg_shape(s, p1, p2)
}

/// Only one pair of positions can carry the three-segment shape.
pub proof fn lemma_seg_shape_unique(s: Seq<u8>, p1: int, p2: int, q1: int, q2: int)
    requires
        seg_shape(s, p1, p2),
        seg_shape(s, q1, q2),
    ensures
        p1 == q1,
        p2 == q2,
{
    assert(s[p1] == SEG_SEP && s[p2] == SEG_SEP);
    assert(s[q1] == SEG_SEP && s[q2] == SEG_SEP);
}

/// What a well-shaped name parses to: the middle segment must be a
/// nonempty digit string, and the resulting unique id (the trinket offset
/// applied when the first segment reads `trinket`) must fit in the id
/// type; otherwise the id is invalid.
pub open spec fn spec_parsed_of(name: Seq<u8>, p1: int, p2: int) -> ParsedName {
    let idseg = name.subrange(p1 + 1, p2);
    let kind = if name.subrange(0, p1) == trinket_kind_bytes() {
        ItemType::Trinket
    } else {
        ItemType::Item
    };
    if idseg.len() > 0 && all_digits(idseg) && digits_value(idseg) <= u32::MAX
        && spec_uniq_id(kind, digits_value(idseg) as u32) <= u32::MAX {
        ParsedName::Parsed { id: spec_uniq_id(kind, digits_value(idseg) as u32) as u32 }
    } else {
        ParsedName::InvalidId
    }
}

/// The outcome of reading one catalog file name.
#[derive(Clone, Copy, Debug, PartialEq, Eq, Structural)]
pub enum ParsedName {
    /// The name does not split into exactly three segments: the file is
    /// skipped.
    Skipped,
    /// The shape is right but the middle segment is not a usable id: the
    /// catalog is malformed.
    InvalidId,
    /// The unique catalog id the name denotes.
    Parsed { id: u32 },
}

/// Reads one catalog file name (as bytes): a name of exactly three
/// `_`-separated segments maps its middle segment through the kind the
/// first segment names — `trinket` selects the offset id range, anything
/// else the plain one. Any other shape is skipped.
pub fn parse_catalog_filename(name: &[u8]) -> (r: ParsedName)
    ensures
        (r is Skipped) <==> !three_segments(name@),
        forall|p1: int, p2: int|
            #[trigger] seg_shape(name@, p1, p2) ==> r == spec_parsed_of(name@, p1, p2),
{
    let n = name.len();
    let mut count: usize = 0;
    let mut p1: usize = 0;
    let mut p2: usize = 0;
    let mut p3: usize = 0;
    let mut i: usize = 0;
    while i < n
        invariant
            n == name.len(),
            i <= n,
            count <= 3,
            count == 0 ==> forall|j: int| 0 <= j < i ==> name@[j] != SEG_SEP,
            count == 1 ==> p1 < i && name@[p1 as int] == SEG_SEP && forall|j: int|
                0 <= j < i && j != p1 ==> name@[j] != SEG_SEP,
            count == 2 ==> p1 < p2 < i && name@[p1 as int] == SEG_SEP && name@[p2 as int]
                == SEG_SEP && forall|j: int|
                0 <= j < i && j != p1 && j != p2 ==> name@[j] != SEG_SEP,
            count == 3 ==> p1 < p2 < p3 < i && name@[p1 as int] == SEG_SEP && name@[p2 as int]
                == SEG_SEP && name@[p3 as int] == SEG_SEP,
        decreases n - i,
    {
        if name[i] == SEG_SEP {
            if count == 0 {
                p1 = i;
                count = 1;
            } else if count == 1 {
                p2 = i;
                count = 2;
            } else if count == 2 {
                p3 = i;
                count = 3;
            }
        }
        i = i + 1;
    }
    if count != 2 {
        proof {
            assert(!three_segments(name@)) by {
                if three_segments(name@) {
                    let (q1, q2): (int, int) = choose|q1: int, q2: int|
                        seg_shape(name@, q1, q2);
                    if count < 2 {
                        assert(name@[q1] == SEG_SEP && name@[q2] == SEG_SEP && q1 != q2);
                    } else {
                        assert(name@[p1 as int] == SEG_SEP && name@[p2 as int] == SEG_SEP
                            && name@[p3 as int] == SEG_SEP);
                    }
                }
            }
        }
        return ParsedName::Skipped;
    }
    proof {
        assert(seg_shape(name@, p1 as int, p2 as int));
        assert forall|q1: int, q2: int| #[trigger] seg_shape(name@, q1, q2) implies q1
            == p1 as int && q2 == p2 as int by {
            lemma_seg_shape_unique(name@, q1, q2, p1 as int, p2 as int);
        }
    }
    let ghost idseg = name@.subrange(p1 + 1, p2 as int);
    // read the middle segment as a decimal number
    if p2 == p1 + 1 {
        return ParsedName::InvalidId;
    }
    let mut val: u64 = 0;
    let mut over = false;
    let mut j: usize = p1 + 1;
    while j < p2
        invariant
            n == name.len(),
            p1 < p2 < n,
            p1 + 1 <= j <= p2,
            seg_shape(name@, p1 as int, p2 as int),
            forall|q1: int, q2: int|
                #[trigger] seg_shape(name@, q1, q2) ==> q1 == p1 as int && q2 == p2 as int,
            idseg == name@.subrange(p1 + 1, p2 as int),
            all_digits(idseg.subrange(0, j - p1 - 1)),
            !over ==> val == digits_value(idseg.subrange(0, j - p1 - 1)) && val <= u32::MAX,
            over ==> digits_value(idseg.subrange(0, j - p1 - 1)) > u32::MAX,
        decreases p2 - j,
    {
        let b = name[j];
        proof {
            assert(idseg[j - p1 - 1] == name@[j as int]);
            assert(idseg.subrange(0, j - p1) =~= idseg.subrange(0, j - p1 - 1).push(
                idseg[j - p1 - 1],
            ));
            assert(idseg.subrange(0, j - p1).drop_last() =~= idseg.subrange(0, j - p1 - 1));
        }
        if b < 48 || b > 57 {
            proof {
                assert(!all_digits(idseg)) by {
                    assert(idseg[j - p1 - 1] == b);
                }
            }
            return ParsedName::InvalidId;
        }
        let ghost pre = idseg.subrange(0, j - p1 - 1);
        if !over {
            val = val * 10 + ((b - 48) as u64);
            if val > 0xFFFF_FFFF {
                over = true;
            }
        } else {
            proof {
                lemma_digits_nonneg(pre);
                assert(digits_value(idseg.subrange(0, j - p1)) == digits_value(pre) * 10 + (b
                    - 48));
            }
        }
        j = j + 1;
    }
    proof {
        assert(idseg.subrange(0, p2 - p1 - 1) =~= idseg);
    }
    if over {
        return ParsedName::InvalidId;
    }
    let raw = val as u32;
    // the first segment names the kind
    let is_trinket = p1 == 7 && name[0] == 116 && name[1] == 114 && name[2] == 105 && name[3]
        == 110 && name[4] == 107 && name[5] == 101 && name[6] == 116;
    proof {
        if is_trinket {
            assert(name@.subrange(0, p1 as int) =~= trinket_kind_bytes());
        } else {
            if name@.subrange(0, p1 as int) == trinket_kind_bytes() {
                assert(name@.subrange(0, p1 as int).len() == 7);
                assert(name@[0] == trinket_kind_bytes()[0]);
                assert(name@[1] == trinket_kind_bytes()[1]);
                assert(name@[2] == trinket_kind_bytes()[2]);
                assert(name@[3] == trinket_kind_bytes()[3]);
                assert(name@[4] == trinket_kind_bytes()[4]);
                assert(name@[5] == trinket_kind_bytes()[5]);
                assert(name@[6] == trinket_kind_bytes()[6]);
            }
        }
    }
    if is_trinket {
        if raw > u32::MAX - TRINKET_OFFSET {
            return ParsedName::InvalidId;
        }
        ParsedName::Parsed { id: get_uniq_id(ItemType::Trinket, raw) }
    } else {
        ParsedName::Parsed { id: get_uniq_id(ItemType::Item, raw) }
    }
}

/// The space byte that separates the tokens of an id label.
pub const LABEL_SEP: u8 = 32;

/// The bytes of the token that marks a trinket id label: `TrinketID:`.
pub open spec fn trinket_label_bytes() -> Seq<u8> {
    seq![84u8, 114u8, 105u8, 110u8, 107u8, 101u8, 116u8, 73u8, 68u8, 58u8]
}

/// The first two space-separated tokens of an id label: the first space
/// stands at `p`, and the second token runs to `q` — the next space, or
/// the end.
pub open spec fn label_shape(s: Seq<u8>, p: int, q: int) -> bool {
    &&& 0 <= p < q <= s.len()
    &&& s[p] == LABEL_SEP
    &&& (forall|j: int| 0 <= j < p ==> s[j] != LABEL_SEP)
    &&& (forall|j: int| p < j < q ==> s[j] != LABEL_SEP)
    &&& (q < s.len() ==> s[q] == LABEL_SEP)
}

/// Only one pair of positions can carry the label shape.
pub proof fn lemma_label_shape_unique(s: Seq<u8>, p: int, q: int, p2: int, q2: int)
    requires
        label_shape(s, p, q),
        label_shape(s, p2, q2),
    ensures
        p == p2,
        q == q2,
{
    assert(s[p] == LABEL_SEP && s[p2] == LABEL_SEP);
    assert(p == p2);
    if q < q2 {
        assert(s[q] == LABEL_SEP);
    }
    if q2 < q {
        assert(s[q2] == LABEL_SEP);
    }
}

/// What a well-shaped id label denotes: its second token must be a
/// nonempty digit string fitting the id type, and the first token decides
/// the kind — `TrinketID:` names a trinket, anything else a plain item.
/// The id is the raw one; the kind-derived offset is applied later.
pub open spec fn spec_label_of(s: Seq<u8>, p: int, q: int) -> Result<(ItemType, u32), ()> {
    let tok = s.subrange(p + 1, q);
    let kind = if s.subrange(0, p) == trinket_label_bytes() {
        ItemType::Trinket
    } else {
        ItemType::Item
    };
    if tok.len() > 0 && all_digits(tok) && digits_value(tok) <= u32::MAX {
        Ok((kind, digits_value(tok) as u32))
    } else {
        Err(())
    }
}

/// Reads an id label (as bytes), such as `TrinketID: 12`: the token after
/// the first space is the raw numeric id, and the token before it names
/// the kind. A label with no space, or whose second token is not a usable
/// number, is an error.
pub fn parse_id_label(label: &[u8]) -> (r: Result<(ItemType, u32), ()>)
    ensures
        (forall|j: int| 0 <= j < label@.len() ==> label@[j] != LABEL_SEP) ==> r is Err,
        forall|p: int, q: int|
            #[trigger] label_shape(label@, p, q) ==> r == spec_label_of(label@, p, q),
{
    let n = label.len();
    let mut p: usize = 0;
    while p < n && label[p] != LABEL_SEP
        invariant
            n == label.len(),
            p <= n,
            forall|j: int| 0 <= j < p ==> label@[j] != LABEL_SEP,
        decreases n - p,
    {
        p = p + 1;
    }
    if p == n {
        proof {
            assert forall|pp: int, qq: int| #[trigger] label_shape(label@, pp, qq) implies false by {
                assert(label@[pp] == LABEL_SEP);
            }
        }
        return Err(());
    }
    let mut q: usize = p + 1;
    while q < n && label[q] != LABEL_SEP
        invariant
            n == label.len(),
            p < n,
            p + 1 <= q <= n,
            forall|j: int| p < j < q ==> label@[j] != LABEL_SEP,
        decreases n - q,
    {
        q = q + 1;
    }
    proof {
        assert(label_shape(label@, p as int, q as int));
        assert forall|pp: int, qq: int| #[trigger] label_shape(label@, pp, qq) implies pp
            == p as int && qq == q as int by {
            lemma_label_shape_unique(label@, pp, qq, p as int, q as int);
        }
    }
    let ghost tok = label@.subrange(p + 1, q as int);
    if q == p + 1 {
        return Err(());
    }
    let mut val: u64 = 0;
    let mut over = false;
    let mut j: usize = p + 1;
    while j < q
        invariant
            n == label.len(),
            p < q <= n,
            p + 1 <= j <= q,
            label_shape(label@, p as int, q as int),
            forall|pp: int, qq: int|
                #[trigger] label_shape(label@, pp, qq) ==> pp == p as int && qq == q as int,
            tok == label@.subrange(p + 1, q as int),
            all_digits(tok.subrange(0, j - p - 1)),
            !over ==> val == digits_value(tok.subrange(0, j - p - 1)) && val <= u32::MAX,
            over ==> digits_value(tok.subrange(0, j - p - 1)) > u32::MAX,
        decreases q - j,
    {
        let b = label[j];
        proof {
            assert(tok[j - p - 1] == label@[j as int]);
            assert(tok.subrange(0, j - p) =~= tok.subrange(0, j - p - 1).push(tok[j - p - 1]));
            assert(tok.subrange(0, j - p).drop_last() =~= tok.subrange(0, j - p - 1));
        }
        if b < 48 || b > 57 {
            proof {
                assert(!all_digits(tok)) by {
                    assert(tok[j - p - 1] == b);
                }
            }
            return Err(());
        }
        let ghost pre = tok.subrange(0, j - p - 1);
        if !over {
            val = val * 10 + ((b - 48) as u64);
            if val > 0xFFFF_FFFF {
                over = true;
            }
        } else {
            proof {
                lemma_digits_nonneg(pre);
                assert(digits_value(tok.subrange(0, j - p)) == digits_value(pre) * 10 + (b
                    - 48));
            }
        }
        j = j + 1;
    }
    proof {
        assert(tok.subrange(0, q - p - 1) =~= tok);
    }
    if over {
        return Err(());
    }
    let raw = val as u32;
    let is_trinket = p == 10 && label[0] == 84 && label[1] == 114 && label[2] == 105 && label[3]
        == 110 && label[4] == 107 && label[5] == 101 && label[6] == 116 && label[7] == 73
        && label[8] == 68 && label[9] == 58;
    proof {
        if is_trinket {
            assert(label@.subrange(0, p as int) =~= trinket_label_bytes());
        } else {
            if label@.subrange(0, p as int) == trinket_label_bytes() {
                assert(label@.subrange(0, p as int).len() == 10);
                assert(label@[0] == trinket_label_bytes()[0]);
                assert(label@[1] == trinket_label_bytes()[1]);
                assert(label@[2] == trinket_label_bytes()[2]);
                assert(label@[3] == trinket_label_bytes()[3]);
                assert(label@[4] == trinket_label_bytes()[4]);
                assert(label@[5] == trinket_label_bytes()[5]);
                assert(label@[6] == trinket_label_bytes()[6]);
                assert(label@[7] == trinket_label_bytes()[7]);
                assert(label@[8] == trinket_label_bytes()[8]);
                assert(label@[9] == trinket_label_bytes()[9]);
            }
        }
    }
    if is_trinket {
        Ok((ItemType::Trinket, raw))
    } else {
        Ok((ItemType::Item, raw))
    }
}

/// The displayable metadata of one catalog entry. `id` is the unique
/// catalog id (trinket ids already offset), so templates and descriptions
/// align by id.
#[derive(Clone, Debug)]
pub struct ItemDescription {
    pub item_title: String,
    pub id: u32,
    pub item_type: ItemType,
    pub quote: String,
    pub descriptions: Vec<String>,
}

/// A batch of item descriptions, as ingested from the description source.
#[derive(Clone, Debug)]
pub struct Items {
    pub items: Vec<ItemDescription>,
}

/// How an aligned description record relates to its ingested form: the id
/// is mapped through the record's own kind, everything else is kept.
pub open spec fn id_aligned(oe: ItemDescription, ne: ItemDescription) -> bool {
    &&& ne.id == spec_uniq_id(oe.item_type, oe.id)
    &&& ne.item_title == oe.item_title
    &&& ne.item_type == oe.item_type
    &&& ne.quote == oe.quote
    &&& ne.descriptions == oe.descriptions
}

/// Applies the kind-derived offset to every ingested description record,
/// so description ids align with template catalog ids: a trinket record's
/// id is shifted by `TRINKET_OFFSET`, any other record keeps its id. A
/// trinket id too large to shift is reported and nothing is changed.
pub fn offset_description_ids(items: Items) -> (r: Result<Items, u32>)
    ensures
        r is Ok ==> r.unwrap().items@.len() == items.items@.len(),
        r is Ok ==> forall|k: int|
            0 <= k < items.items@.len() ==> #[trigger] id_aligned(
                items.items@[k],
                r.unwrap().items@[k],
            ),
        r is Err ==> exists|k: int|
            0 <= k < items.items@.len() && (#[trigger] items.items@[k]).item_type is Trinket
            && items.items@[k].id == r.unwrap_err() && items.items@[k].id + TRINKET_OFFSET
            > u32::MAX,
{
    let ghost orig = items.items@;
    let mut rest = items.items;
    let mut out: Vec<ItemDescription> = Vec::new();
    let ghost t: int = 0;
    while rest.len() > 0
        invariant
            orig == items.items@,
            0 <= t <= orig.len(),
            rest@ =~= orig.skip(t),
            out@.len() == t,
            forall|k: int| 0 <= k < t ==> #[trigger] id_aligned(orig[k], out@[k]),
        decreases rest.len(),
    {
        let d = rest.remove(0);
        proof {
            assert(d == orig[t]);
            assert(rest@ =~= orig.skip(t + 1));
        }
        let ItemDescription { item_title, id, item_type, quote, descriptions } = d;
        let new_id = match item_type {
            ItemType::Item => id,
            ItemType::Trinket => {
                if id > u32::MAX - TRINKET_OFFSET {
                    proof {
                        assert(orig[t].item_type is Trinket);
                        assert(orig[t].id == id);
                    }
                    return Err(id);
                }
                id + TRINKET_OFFSET
            },
        };
        out.push(
            ItemDescription { item_title, id: new_id, item_type, quote, descriptions },
        );
        proof {
            t = t + 1;
        }
    }
    proof {
        assert(orig.skip(t).len() == 0);
        assert(t == orig.len());
    }
    Ok(Items { items: out })
}

/// Whether a sequence of descriptions holds pairwise distinct ids.
pub open spec fn unique_ids(s: Seq<ItemDescription>) -> bool {
    forall|i: int, j: int| 0 <= i < j < s.len() ==> s[i].id != s[j].id
}

/// The description a sequence associates with `id`: the last one carrying
/// that id, as a later record overrides an earlier one.
pub open spec fn spec_lookup(s: Seq<ItemDescription>, id: u32) -> Option<ItemDescription>
    decreases s.len(),
{
    if s.len() == 0 {
        None
    } else if s.last().id == id {
        Some(s.last())
    } else {
        spec_lookup(s.drop_last(), id)
    }
}

/// A lookup succeeds exactly when some record carries the id, and then
/// returns a record of the sequence carrying it.
pub proof fn lemma_lookup_props(s: Seq<ItemDescription>, id: u32)
    ensures
        (spec_lookup(s, id) is Some) <==> exists|k: int| 0 <= k < s.len() && s[k].id == id,
        spec_lookup(s, id) is Some ==> spec_lookup(s, id).unwrap().id == id && s.contains(
            spec_lookup(s, id).unwrap(),
        ),
    decreases s.len(),
{
    if s.len() > 0 {
        lemma_lookup_props(s.drop_last(), id);
        if s.last().id == id {
            assert(s[s.len() - 1].id == id);
        } else {
            if spec_lookup(s.drop_last(), id) is Some {
                let w = choose|k: int|
                    0 <= k < s.drop_last().len() && s.drop_last()[k].id == id;
                assert(s[w].id == id);
                let r = spec_lookup(s.drop_last(), id).unwrap();
                let w2 = choose|k: int|
                    0 <= k < s.drop_last().len() && s.drop_last()[k] == r;
                assert(s[w2] == r);
            } else {
                if exists|k: int| 0 <= k < s.len() && s[k].id == id {
                    let w = choose|k: int| 0 <= k < s.len() && s[k].id == id;
                    assert(w < s.len() - 1 ==> s.drop_last()[w].id == id);
                }
            }
        }
    }
}

/// Under pairwise distinct ids, the lookup returns exactly the record at
/// the index carrying the id.
pub proof fn lemma_lookup_at(s: Seq<ItemDescription>, id: u32, j: int)
    requires
        unique_ids(s),
        0 <= j < s.len(),
        s[j].id == id,
    ensures
        spec_lookup(s, id) == Some(s[j]),
    decreases s.len(),
{
    if s.last().id == id {
        assert(j == s.len() - 1);
    } else {
        assert(j < s.len() - 1);
        assert(unique_ids(s.drop_last()));
        assert(s.drop_last()[j].id == id);
        lemma_lookup_at(s.drop_last(), id, j);
    }
}

/// The description catalog keyed by unique id: each id occurs at most once,
/// and a lookup by id resolves to its record.
#[derive(Clone, Debug)]
pub struct DescriptionSet {
    pub entries: Vec<ItemDescription>,
}

impl DescriptionSet {
    /// Well-formed: the stored records hold pairwise distinct ids.
    pub open spec fn wf(self) -> bool {
        unique_ids(self.entries@)
    }

    /// Builds the set from an ingested batch. A later record with an
    /// already-seen id replaces the earlier one, so each id resolves to the
    /// last record of the batch carrying it.
    pub fn from_items(items: Items) -> (r: DescriptionSet)
        ensures
            r.wf(),
            forall|id: u32| spec_lookup(r.entries@, id) == spec_lookup(items.items@, id),
    {
        let ghost orig = items.items@;
        let mut rest = items.items;
        let mut entries: Vec<ItemDescription> = Vec::new();
        let ghost t: int = 0;
        while rest.len() > 0
            invariant
                0 <= t <= orig.len(),
                rest@ =~= orig.skip(t),
                unique_ids(entries@),
                forall|id: u32| spec_lookup(entries@, id) == spec_lookup(orig.take(t), id),
            decreases rest.len(),
        {
            let ghost pre = entries@;
            let d = rest.remove(0);
            proof {
                assert(d == orig[t]);
                assert(rest@ =~= orig.skip(t + 1));
            }
            let mut idx: usize = 0;
            let mut found = false;
            while idx < entries.len() && !found
                invariant
                    idx <= entries.len(),
                    entries@ == pre,
                    found ==> idx < entries.len() && entries[idx as int].id == d.id,
                    !found ==> forall|k: int| 0 <= k < idx ==> entries[k].id != d.id,
                decreases entries.len() - idx + (if found {
                    0int
                } else {
                    1int
                }),
            {
                if entries[idx].id == d.id {
                    found = true;
                } else {
                    idx = idx + 1;
                }
            }
            let ghost widx = idx as int;
            if found {
                entries[idx] = d;
            } else {
                entries.push(d);
            }
            proof {
                assert(unique_ids(entries@)) by {
                    if found {
                        assert forall|i: int, j: int|
                            0 <= i < j < entries@.len() implies entries@[i].id
                            != entries@[j].id by {
                            assert(pre[widx].id == d.id);
                        }
                    }
                }
                assert(orig.take(t + 1).drop_last() =~= orig.take(t));
                assert(orig.take(t + 1).last() == orig[t]);
                assert forall|id: u32|
                    spec_lookup(entries@, id) == spec_lookup(orig.take(t + 1), id) by {
                    if id == d.id {
                        lemma_lookup_at(entries@, id, if found {
                            widx
                        } else {
                            entries@.len() - 1
                        });
                    } else {
                        lemma_lookup_props(entries@, id);
                        lemma_lookup_props(pre, id);
                        if exists|k: int| 0 <= k < entries@.len() && entries@[k].id == id {
                            let k = choose|k: int|
                                0 <= k < entries@.len() && entries@[k].id == id;
                            assert(pre[k].id == id);
                            lemma_lookup_at(entries@, id, k);
                            lemma_lookup_at(pre, id, k);
                        } else {
                            assert forall|k: int| 0 <= k < pre.len() implies pre[k].id
                                != id by {
                                assert(entries@[k].id == pre[k].id);
                            }
                        }
                    }
                }
                t = t + 1;
            }
        }
        proof {
            assert(orig.take(t) =~= orig);
        }
        DescriptionSet { entries }
    }

    /// The index of the record carrying `id`, when the set holds one.
    pub fn index_of(&self, id: u32) -> (r: Option<usize>)
        requires
            self.wf(),
        ensures
            (r is Some) <==> exists|k: int| 0 <= k < self.entries.len()
                && self.entries[k].id == id,
            r is Some ==> r.unwrap() < self.entries.len() && self.entries[r.unwrap() as int].id
                == id,
    {
        let mut i: usize = 0;
        while i < self.entries.len()
            invariant
                i <= self.entries.len(),
                forall|k: int| 0 <= k < i ==> self.entries[k].id != id,
            decreases self.entries.len() - i,
        {
            if self.entries[i].id == id {
                return Some(i);
            }
            i = i + 1;
        }
        None
    }

    /// The record at a resolved index.
    pub fn get(&self, i: usize) -> (r: &ItemDescription)
        requires
            i < self.entries.len(),
        ensures
            *r == self.entries[i as int],
    {
        &self.entries[i]
    }
}

} // verus!

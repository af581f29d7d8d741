//! Tree objects: the entry grammar, its canonical serialization, and the
//! sort that makes a tree's bytes independent of the order its entries were
//! added in. A tree's payload is kept as the raw entry stream, exactly as
//! it is hashed and stored; entries are parsed out of it on demand.

use crate::bytesutil::{find_byte, lemma_ascii_valid_utf8, lemma_find_byte, lemma_find_byte_exact, lemma_valid_utf8_split_after_ascii, spec_find_byte, utf8_check};
use crate::error::StoreError;
use crate::numbers::{is_digit, is_hex_digit, lemma_hex_digits, lemma_parse_render, lemma_render_digits, render_hex, render_u64, spec_hex, spec_parse_plus, spec_render};
use crate::object::{kind_blob, kind_tree, Object};
use vstd::prelude::*;
use vstd::slice::{slice_subrange, slice_to_vec};
use vstd::string::StringSliceAdditionalSpecFns;
use vstd::utf8::valid_utf8;

verus! {

/// One tree entry: a mode, a name, and the digest of the referenced object.
pub struct TreeItem {
    /// POSIX-style permission and type bits.
    pub mode: u32,
    /// The entry's name; never holds a NUL byte.
    pub name: Vec<u8>,
    /// The referenced object's twenty-byte digest.
    pub hash: Vec<u8>,
}

/// The mathematical shape of one tree entry.
pub struct TreeItemM {
    /// POSIX-style permission and type bits.
    pub mode: u32,
    /// The entry's name bytes.
    pub name: Seq<u8>,
    /// The referenced object's digest bytes.
    pub hash: Seq<u8>,
}

impl View for TreeItem {
    type V = TreeItemM;

    open spec fn view(&self) -> TreeItemM {
        TreeItemM { mode: self.mode, name: self.name@, hash: self.hash@ }
    }
}

/// What an entry must look like to be serializable and to survive a
/// round trip: a twenty-byte digest and a NUL-free, well-formed name.
pub open spec fn item_wf(it: TreeItemM) -> bool {
    &&& it.hash.len() == 20
    &&& forall|i: int| 0 <= i < it.name.len() ==> it.name[i] != 0
    &&& valid_utf8(it.name)
}

/// The serialization of one entry: octal mode, space, name, NUL, raw digest.
pub open spec fn item_bytes(it: TreeItemM) -> Seq<u8> {
    spec_render(it.mode as nat, 8) + seq![32u8] + it.name + seq![0u8] + it.hash
}

/// The serialization of a whole entry sequence.
pub open spec fn items_bytes(s: Seq<TreeItemM>) -> Seq<u8>
    decreases s.len(),
{
    if s.len() == 0 {
        Seq::empty()
    } else {
        item_bytes(s[0]) + items_bytes(s.drop_first())
    }
}

/// What parsing one entry off the front of `b` yields: the entry and the
/// unread rest, or nothing when the stream violates the grammar.
pub open spec fn spec_parse_item(b: Seq<u8>) -> Option<(TreeItemM, Seq<u8>)> {
    match spec_find_byte(b, 0) {
        None => None,
        Some(z) => {
            let header = b.take(z);
            let after = b.skip(z + 1);
            if after.len() < 20 {
                None
            } else if !valid_utf8(header) {
                None
            } else {
                match spec_find_byte(header, 32) {
                    None => None,
                    Some(sp) => {
                        match spec_parse_plus(header.take(sp), 8) {
                            Some(m) => if m <= 0xffff_ffff {
                                Some(
                                    (
                                        TreeItemM {
                                            mode: m as u32,
                                            name: header.skip(sp + 1),
                                            hash: after.take(20),
                                        },
                                        after.skip(20),
                                    ),
                                )
                            } else {
                                None
                            },
                            None => None,
                        }
                    },
                }
            }
        },
    }
}

/// What parsing a whole entry stream yields: every entry in order, or
/// nothing as soon as one entry is malformed.
pub open spec fn spec_parse_items(b: Seq<u8>) -> Option<Seq<TreeItemM>>
    decreases b.len(),
{
    if b.len() == 0 {
        Some(Seq::empty())
    } else {
        match spec_parse_item(b) {
            None => None,
            Some((it, rest)) => {
                proof {
                    lemma_parse_item_shrinks(b);
                }
                match spec_parse_items(rest) {
                    None => None,
                    Some(s) => Some(seq![it] + s),
                }
            },
        }
    }
}

/// A parsed entry consumes at least one byte.
pub proof fn lemma_parse_item_shrinks(b: Seq<u8>)
    ensures
        match spec_parse_item(b) {
            Some((it, rest)) => rest.len() < b.len(),
            None => true,
        },
{
    match spec_find_byte(b, 0) {
        None => {},
        Some(z) => {
            crate::bytesutil::lemma_find_byte(b, 0);
        },
    }
}

impl TreeItem {
    /// Parses one entry off the front of `data`, handing back the unread
    /// rest. Fails as `Malformed` exactly when the grammar is violated:
    /// no NUL terminator, fewer than twenty digest bytes after it, a
    /// header that is not UTF-8 or has no space, or an unparsable mode.
    pub fn parse(data: &[u8]) -> (r: Result<(&[u8], TreeItem), StoreError>)
        ensures
            match r {
                Ok((rest, item)) => spec_parse_item(data@) == Some((item@, rest@)),
                Err(e) => e == StoreError::Malformed && spec_parse_item(data@) is None,
            },
    {
        let n: usize = data.len();
        let z = match find_byte(data, 0) {
            Some(z) => z,
            None => {
                return Err(StoreError::Malformed);
            },
        };
        proof {
            crate::bytesutil::lemma_find_byte(data@, 0);
            assert(z < data@.len());
        }
        let header = slice_subrange(data, 0, z);
        let after = slice_subrange(data, z + 1, n);
        proof {
            assert(header@ =~= data@.take(z as int));
            assert(after@ =~= data@.skip(z + 1));
        }
        if after.len() < 20 {
            return Err(StoreError::Malformed);
        }
        if !utf8_check(header) {
            return Err(StoreError::Malformed);
        }
        let sp = match find_byte(header, 32) {
            Some(sp) => sp,
            None => {
                return Err(StoreError::Malformed);
            },
        };
        proof {
            crate::bytesutil::lemma_find_byte(header@, 32);
        }
        let mode_part = slice_subrange(header, 0, sp);
        let name_part = slice_subrange(header, sp + 1, header.len());
        proof {
            assert(mode_part@ =~= header@.take(sp as int));
            assert(name_part@ =~= header@.skip(sp + 1));
        }
        let mode = match crate::numbers::parse_plus(mode_part, 8, 0xffff_ffff) {
            Some(m) => m as u32,
            None => {
                return Err(StoreError::Malformed);
            },
        };
        let hash_part = slice_subrange(after, 0, 20);
        let rest = slice_subrange(after, 20, after.len());
        proof {
            assert(hash_part@ =~= data@.skip(z + 1).take(20));
            assert(rest@ =~= data@.skip(z + 1).skip(20));
        }
        Ok(
            (
                rest,
                TreeItem { mode, name: slice_to_vec(name_part), hash: slice_to_vec(hash_part) },
            ),
        )
    }

    /// Whether this entry references a regular file: the mode's type bits
    /// denote one.
    pub fn is_file(&self) -> (r: bool)
        ensures
            r == spec_is_file(self.mode),
    {
        (self.mode & 0o170000) == 0o100000
    }
}

/// Whether a mode's type bits denote a regular file.
pub open spec fn spec_is_file(mode: u32) -> bool {
    mode & 0o170000 == 0o100000
}

/// A mode with its high type bit forced to match the object: cleared for
/// a subtree, set for anything else.
pub open spec fn spec_mode_for(is_tree: bool, mode: u32) -> u32 {
    if is_tree {
        mode & !0x8000u32
    } else {
        mode | 0x8000u32
    }
}

/// The entry that `add_object` appends: the adjusted mode, the given
/// name, and the object's canonical digest.
pub open spec fn entry_for(o: Object, name: Seq<u8>, mode: u32) -> TreeItemM {
    TreeItemM { mode: spec_mode_for(o is Tree, mode), name, hash: o.spec_hash() }
}

/// Zero digits, `k` of them.
pub open spec fn zero_digits(k: int) -> Seq<u8> {
    Seq::new(k as nat, |i: int| 48u8)
}

/// `s` left-padded with zero digits to at least six bytes, the width of a
/// rendered mode.
pub open spec fn pad6(s: Seq<u8>) -> Seq<u8> {
    if s.len() >= 6 {
        s
    } else {
        zero_digits(6 - s.len()) + s
    }
}

/// The rendered listing line of one entry: the mode in six octal digits,
/// the referenced kind, the identifier in forty hexadecimal characters,
/// four spaces, and the name.
pub open spec fn spec_render_line(it: TreeItemM) -> Seq<u8> {
    pad6(spec_render(it.mode as nat, 8)) + seq![32u8] + (if spec_is_file(it.mode) {
        kind_blob()
    } else {
        kind_tree()
    }) + seq![32u8] + spec_hex(it.hash) + seq![32u8, 32u8, 32u8, 32u8] + it.name
}

impl TreeItem {
    /// Renders the entry as one listing line: mode, kind, identifier, and
    /// name.
    pub fn render_line(&self) -> (r: String)
        requires
            item_wf(self@),
        ensures
            vstd::utf8::encode_utf8(r@) == spec_render_line(self@),
    {
        let mut buf: Vec<u8> = Vec::new();
        let mut oct = render_u64(self.mode as u64, 8);
        let mut pad: usize = 0;
        let needed: usize = if oct.len() >= 6 {
            0
        } else {
            6 - oct.len()
        };
        while pad < needed
            invariant
                pad <= needed,
                buf@ =~= zero_digits(pad as int),
            decreases needed - pad,
        {
            buf.push(48);
            pad = pad + 1;
            proof {
                assert(buf@ =~= zero_digits(pad as int));
            }
        }
        buf.append(&mut oct);
        proof {
            assert(buf@ =~= pad6(spec_render(self.mode as nat, 8)));
        }
        buf.push(32);
        let kind = if self.is_file() {
            crate::object::blob_kind_slice()
        } else {
            crate::object::tree_kind_slice()
        };
        let mut kind_copy = slice_to_vec(kind);
        buf.append(&mut kind_copy);
        buf.push(32);
        let mut hex = render_hex(self.hash.as_slice());
        buf.append(&mut hex);
        buf.push(32);
        buf.push(32);
        buf.push(32);
        buf.push(32);
        let ghost ascii_part = buf@;
        let mut name_copy = slice_to_vec(self.name.as_slice());
        buf.append(&mut name_copy);
        proof {
            broadcast use vstd::utf8::valid_utf8_concat;

            lemma_render_digits(self.mode as nat, 8);
            lemma_hex_digits(self.hash@);
            let md = pad6(spec_render(self.mode as nat, 8));
            let kb = if spec_is_file(self@.mode) {
                kind_blob()
            } else {
                kind_tree()
            };
            let hx = spec_hex(self.hash@);
            assert(ascii_part =~= md + seq![32u8] + kb + seq![32u8] + hx + seq![
                32u8,
                32u8,
                32u8,
                32u8,
            ]);
            assert forall|i: int| 0 <= i < md.len() implies md[i] < 128 by {
                let oc = spec_render(self.mode as nat, 8);
                if i < md.len() - oc.len() {
                    assert(md[i] == 48);
                } else {
                    assert(md[i] == oc[i - (md.len() - oc.len())]);
                    assert(is_digit(oc[i - (md.len() - oc.len())], 8));
                }
            }
            assert forall|i: int| 0 <= i < ascii_part.len() implies ascii_part[i] < 128 by {
                if i < md.len() {
                    assert(ascii_part[i] == md[i]);
                } else if i < md.len() + 1 {
                    assert(ascii_part[i] == 32);
                } else if i < md.len() + 1 + kb.len() {
                    assert(ascii_part[i] == kb[i - md.len() - 1]);
                } else if i < md.len() + 2 + kb.len() {
                    assert(ascii_part[i] == 32);
                } else if i < md.len() + 2 + kb.len() + hx.len() {
                    assert(ascii_part[i] == hx[i - md.len() - 2 - kb.len()]);
                    assert(is_hex_digit(hx[i - md.len() - 2 - kb.len()]));
                } else {
                    assert(ascii_part[i] == 32);
                }
            }
            crate::bytesutil::lemma_ascii_valid_utf8(ascii_part);
            assert(valid_utf8(self.name@));
            assert(valid_utf8(ascii_part + self.name@));
            assert(buf@ =~= ascii_part + self.name@);
            assert(buf@ =~= spec_render_line(self@));
        }
        crate::bytesutil::string_from_utf8(buf)
    }
}

/// Byte-wise lexicographic order on names.
pub open spec fn bytes_le(a: Seq<u8>, b: Seq<u8>) -> bool
    decreases a.len(),
{
    if a.len() == 0 {
        true
    } else if b.len() == 0 {
        false
    } else if a[0] < b[0] {
        true
    } else if a[0] > b[0] {
        false
    } else {
        bytes_le(a.drop_first(), b.drop_first())
    }
}

/// The name order is total.
pub proof fn lemma_bytes_le_total(a: Seq<u8>, b: Seq<u8>)
    ensures
        bytes_le(a, b) || bytes_le(b, a),
    decreases a.len(),
{
    if a.len() > 0 && b.len() > 0 && a[0] == b[0] {
        lemma_bytes_le_total(a.drop_first(), b.drop_first());
    }
}

/// The name order is antisymmetric: mutual order means equality.
pub proof fn lemma_bytes_le_antisym(a: Seq<u8>, b: Seq<u8>)
    requires
        bytes_le(a, b),
        bytes_le(b, a),
    ensures
        a == b,
    decreases a.len(),
{
    if a.len() > 0 && b.len() > 0 && a[0] == b[0] {
        lemma_bytes_le_antisym(a.drop_first(), b.drop_first());
        assert(a =~= seq![a[0]] + a.drop_first());
        assert(b =~= seq![b[0]] + b.drop_first());
    } else {
        assert(a =~= b);
    }
}

/// The name order is transitive.
pub proof fn lemma_bytes_le_trans(a: Seq<u8>, b: Seq<u8>, c: Seq<u8>)
    requires
        bytes_le(a, b),
        bytes_le(b, c),
    ensures
        bytes_le(a, c),
    decreases a.len(),
{
    if a.len() > 0 && b.len() > 0 && c.len() > 0 && a[0] == b[0] && b[0] == c[0] {
        lemma_bytes_le_trans(a.drop_first(), b.drop_first(), c.drop_first());
    }
}

/// Comparing two sequences that agree on their first `i` bytes reduces to
/// comparing what follows.
proof fn lemma_bytes_le_skip(a: Seq<u8>, b: Seq<u8>, i: int)
    requires
        0 <= i <= a.len(),
        i <= b.len(),
        forall|j: int| 0 <= j < i ==> a[j] == b[j],
    ensures
        bytes_le(a, b) == bytes_le(a.skip(i), b.skip(i)),
    decreases i,
{
    if i > 0 {
        assert(a.len() > 0 && b.len() > 0 && a[0] == b[0]);
        assert(forall|j: int| 0 <= j < i - 1 ==> a.drop_first()[j] == b.drop_first()[j]);
        lemma_bytes_le_skip(a.drop_first(), b.drop_first(), i - 1);
        assert(a.drop_first().skip(i - 1) =~= a.skip(i));
        assert(b.drop_first().skip(i - 1) =~= b.skip(i));
    } else {
        assert(a.skip(0) =~= a);
        assert(b.skip(0) =~= b);
    }
}

/// Byte-wise lexicographic comparison of two names.
pub fn name_le(a: &[u8], b: &[u8]) -> (r: bool)
    ensures
        r == bytes_le(a@, b@),
{
    let an: usize = a.len();
    let bn: usize = b.len();
    let mut i: usize = 0;
    while i < an && i < bn
        invariant
            an == a@.len(),
            bn == b@.len(),
            i <= an,
            i <= bn,
            forall|j: int| 0 <= j < i ==> a@[j] == b@[j],
        decreases an - i,
    {
        let x: u8 = *vstd::slice::slice_index_get(a, i);
        let y: u8 = *vstd::slice::slice_index_get(b, i);
        if x < y {
            proof {
                lemma_bytes_le_skip(a@, b@, i as int);
            }
            return true;
        }
        if x > y {
            proof {
                lemma_bytes_le_skip(a@, b@, i as int);
            }
            return false;
        }
        i = i + 1;
    }
    proof {
        lemma_bytes_le_skip(a@, b@, i as int);
        if i == an {
            assert(a@.skip(i as int).len() == 0);
        } else {
            assert(b@.skip(i as int).len() == 0);
            assert(a@.skip(i as int).len() > 0);
        }
    }
    an <= bn
}

/// Whether the entries stand in name order.
pub open spec fn sorted_by_name(s: Seq<TreeItemM>) -> bool {
    forall|i: int, j: int|
        0 <= i < j < s.len() ==> bytes_le(#[trigger] s[i].name, #[trigger] s[j].name)
}

/// A tree's payload: the raw entry stream, exactly as hashed and stored.
pub struct TreeData {
    /// The serialized entries. The stream always parses back into entries.
    pub data: Vec<u8>,
}

impl TreeData {
    /// A tree payload is well formed when its byte stream parses.
    pub open spec fn wf(&self) -> bool {
        spec_parse_items(self.data@) is Some
    }

    /// The entries the payload parses into.
    pub open spec fn spec_items(&self) -> Seq<TreeItemM> {
        spec_parse_items(self.data@)->Some_0
    }

    /// A tree with no entries.
    pub fn empty() -> (r: TreeData)
        ensures
            r.wf(),
            r.spec_items() == Seq::<TreeItemM>::empty(),
            r.data@ == Seq::<u8>::empty(),
    {
        TreeData { data: Vec::new() }
    }

    /// All entries of the tree, in payload order.
    pub fn iter(&self) -> (r: Vec<TreeItem>)
        requires
            self.wf(),
        ensures
            models_of(r@) == self.spec_items(),
    {
        let mut out: Vec<TreeItem> = Vec::new();
        let mut rest: &[u8] = self.data.as_slice();
        proof {
            assert(spec_parse_items(rest@) == spec_parse_items(self.data@));
        }
        loop
            invariant
                spec_parse_items(rest@) is Some,
                spec_parse_items(self.data@) is Some,
                self.spec_items() == models_of(out@) + spec_parse_items(rest@)->Some_0,
            decreases rest@.len(),
        {
            if rest.len() == 0 {
                proof {
                    assert(spec_parse_items(rest@)->Some_0 =~= Seq::<TreeItemM>::empty());
                    assert(models_of(out@) + Seq::<TreeItemM>::empty() =~= models_of(out@));
                }
                return out;
            }
            match TreeItem::parse(rest) {
                Ok((next, item)) => {
                    proof {
                        lemma_parse_item_shrinks(rest@);
                        assert(models_of(out@.push(item)) =~= models_of(out@).push(item@));
                        assert(seq![item@] + spec_parse_items(next@)->Some_0 =~= spec_parse_items(
                            rest@,
                        )->Some_0);
                        assert(models_of(out@).push(item@) + spec_parse_items(next@)->Some_0
                            =~= models_of(out@) + spec_parse_items(rest@)->Some_0);
                    }
                    out.push(item);
                    rest = next;
                },
                Err(_) => {
                    proof {
                        assert(false);
                    }
                    return vstd::pervasive::unreached();
                },
            }
        }
    }

    /// Appends one entry's serialization to the payload.
    pub fn add_item(&mut self, item: &TreeItem)
        requires
            old(self).wf(),
            item_wf(item@),
        ensures
            final(self).data@ == old(self).data@ + item_bytes(item@),
            final(self).wf(),
            final(self).spec_items() == old(self).spec_items().push(item@),
    {
        let ghost before = self.data@;
        let mut mode_bytes = render_u64(item.mode as u64, 8);
        self.data.append(&mut mode_bytes);
        self.data.push(32);
        let mut name_copy = slice_to_vec(item.name.as_slice());
        self.data.append(&mut name_copy);
        self.data.push(0);
        let mut hash_copy = slice_to_vec(item.hash.as_slice());
        self.data.append(&mut hash_copy);
        proof {
            assert(self.data@ =~= before + item_bytes(item@));
            lemma_parse_items_push(before, item@);
        }
    }

    /// Appends an entry that references `object` under `name`, forcing
    /// the mode's high type bit to match the object's kind, and recording
    /// the object's canonical digest.
    pub fn add_object(&mut self, object: &Object, name: &str, mode: u32) -> (r: Result<
        (),
        StoreError,
    >)
        requires
            old(self).wf(),
            !name.spec_bytes().contains(0u8),
        ensures
            r is Ok,
            final(self).wf(),
            final(self).data@ == old(self).data@ + item_bytes(
                entry_for(*object, name.spec_bytes(), mode),
            ),
            final(self).spec_items() == old(self).spec_items().push(
                entry_for(*object, name.spec_bytes(), mode),
            ),
    {
        let adjusted: u32 = if let Object::Tree(_) = object {
            mode & !0x8000u32
        } else {
            mode | 0x8000u32
        };
        let item = TreeItem {
            mode: adjusted,
            name: slice_to_vec(name.as_bytes()),
            hash: object.hash(),
        };
        proof {
            broadcast use vstd::utf8::encode_utf8_valid_utf8;

            assert(item@ == entry_for(*object, name.spec_bytes(), mode));
            assert(valid_utf8(name.spec_bytes()));
        }
        self.add_item(&item);
        Ok(())
    }

    /// Decodes a tree payload, keeping the raw entry stream byte for
    /// byte. Fails as `Malformed` exactly when the stream does not parse.
    pub fn from_bytes(data: &[u8]) -> (r: Result<TreeData, StoreError>)
        ensures
            match r {
                Ok(t) => t.data@ == data@ && t.wf(),
                Err(e) => e == StoreError::Malformed && spec_parse_items(data@) is None,
            },
    {
        let mut rest: &[u8] = data;
        loop
            invariant
                spec_parse_items(data@) is Some <==> spec_parse_items(rest@) is Some,
            decreases rest@.len(),
        {
            if rest.len() == 0 {
                return Ok(TreeData { data: slice_to_vec(data) });
            }
            match TreeItem::parse(rest) {
                Ok((next, _item)) => {
                    proof {
                        lemma_parse_item_shrinks(rest@);
                    }
                    rest = next;
                },
                Err(_) => {
                    return Err(StoreError::Malformed);
                },
            }
        }
    }

    /// Sorts the entries by name, byte-wise ascending, and rewrites the
    /// payload as the entries' canonical serialization. After this step the
    /// payload, and with it the object's identifier, no longer depends on
    /// the order the entries were added in.
    pub fn sort(&mut self)
        requires
            old(self).wf(),
        ensures
            final(self).wf(),
            sorted_by_name(final(self).spec_items()),
            final(self).spec_items().to_multiset() == old(self).spec_items().to_multiset(),
            final(self).data@ == items_bytes(final(self).spec_items()),
    {
        broadcast use vstd::seq_lib::group_to_multiset_ensures;

        proof {
            lemma_parsed_items_wf(self.data@);
        }
        let items = self.iter();
        let ghost orig = models_of(items@);
        let n: usize = items.len();
        let mut arranged: Vec<TreeItem> = Vec::new();
        let mut k: usize = 0;
        proof {
            assert(orig.take(0) =~= Seq::<TreeItemM>::empty());
            assert(models_of(arranged@) =~= Seq::<TreeItemM>::empty());
            assert forall|i: int| 0 <= i < n implies item_wf(#[trigger] items@[i]@) by {
                assert(items@[i]@ == models_of(items@)[i]);
            }
        }
        while k < n
            invariant
                n == items@.len(),
                k <= n,
                orig == models_of(items@),
                forall|i: int| 0 <= i < n ==> item_wf(#[trigger] items@[i]@),
                forall|i: int| 0 <= i < arranged@.len() ==> item_wf(#[trigger] arranged@[i]@),
                sorted_by_name(models_of(arranged@)),
                models_of(arranged@).to_multiset() == orig.take(k as int).to_multiset(),
            decreases n - k,
        {
            let it = items[k].duplicate();
            let mut j: usize = arranged.len();
            loop
                invariant
                    j <= arranged@.len(),
                    forall|t: int|
                        j <= t < arranged@.len() ==> !bytes_le(
                            #[trigger] arranged@[t]@.name,
                            it@.name,
                        ),
                ensures
                    j <= arranged@.len(),
                    forall|t: int|
                        j <= t < arranged@.len() ==> !bytes_le(
                            #[trigger] arranged@[t]@.name,
                            it@.name,
                        ),
                    j > 0 ==> bytes_le(arranged@[j - 1]@.name, it@.name),
                decreases j,
            {
                if j == 0 {
                    break;
                }
                if name_le(arranged[j - 1].name.as_slice(), it.name.as_slice()) {
                    break;
                }
                j = j - 1;
            }
            proof {
                assert forall|t: int| j <= t < arranged@.len() implies bytes_le(
                    it@.name,
                    #[trigger] arranged@[t]@.name,
                ) by {
                    lemma_bytes_le_total(arranged@[t]@.name, it@.name);
                }
                if j > 0 {
                    assert forall|t: int| 0 <= t < j implies bytes_le(
                        #[trigger] arranged@[t]@.name,
                        it@.name,
                    ) by {
                        if t < j - 1 {
                            assert(bytes_le(
                                models_of(arranged@)[t].name,
                                models_of(arranged@)[j - 1].name,
                            ));
                            lemma_bytes_le_trans(
                                arranged@[t]@.name,
                                arranged@[j - 1]@.name,
                                it@.name,
                            );
                        }
                    }
                }
            }
            let ghost before = arranged@;
            let ghost itm = it@;
            arranged.insert(j, it);
            k = k + 1;
            proof {
                models_of(before).insert_ensures(j as int, itm);
                assert(arranged@.map_values(|x: TreeItem| x@) =~= models_of(before).insert(
                    j as int,
                    itm,
                ));
                lemma_to_multiset_insert(models_of(before), j as int, itm);
                assert(orig.take(k as int) =~= orig.take(k - 1).push(orig[k - 1]));
                vstd::seq_lib::to_multiset_build(orig.take(k - 1), orig[k - 1]);
                assert(orig.take(k as int).to_multiset() =~= orig.take(
                    k - 1,
                ).to_multiset().insert(orig[k - 1]));
                assert(itm == orig[k - 1]);
                let now = models_of(arranged@);
                assert forall|a: int, b: int| 0 <= a < b < now.len() implies bytes_le(
                    #[trigger] now[a].name,
                    #[trigger] now[b].name,
                ) by {
                    if a < j && b == j {
                        assert(now[a] == models_of(before)[a]);
                    } else if a == j && b > j {
                        assert(now[b] == models_of(before)[b - 1]);
                    } else if a < j && b > j {
                        assert(now[a] == models_of(before)[a]);
                        assert(now[b] == models_of(before)[b - 1]);
                    } else if a > j && b > j {
                        assert(now[a] == models_of(before)[a - 1]);
                        assert(now[b] == models_of(before)[b - 1]);
                    } else if a < j && b < j {
                        assert(now[a] == models_of(before)[a]);
                        assert(now[b] == models_of(before)[b]);
                    }
                }
            }
        }
        proof {
            assert(orig.take(n as int) =~= orig);
        }
        self.data = Vec::new();
        proof {
            assert(self.data@ =~= Seq::<u8>::empty());
            assert(self.spec_items() =~= Seq::<TreeItemM>::empty());
            assert(models_of(arranged@).take(0) =~= Seq::<TreeItemM>::empty());
            assert(items_bytes(models_of(arranged@).take(0)) =~= Seq::<u8>::empty());
        }
        let total: usize = arranged.len();
        let mut m: usize = 0;
        while m < total
            invariant
                total == arranged@.len(),
                m <= total,
                forall|i: int| 0 <= i < arranged@.len() ==> item_wf(#[trigger] arranged@[i]@),
                self.wf(),
                self.spec_items() == models_of(arranged@).take(m as int),
                self.data@ == items_bytes(models_of(arranged@).take(m as int)),
            decreases total - m,
        {
            let entry = &arranged[m];
            proof {
                assert(item_wf(entry@));
            }
            self.add_item(entry);
            m = m + 1;
            proof {
                assert(models_of(arranged@).take(m as int) =~= models_of(arranged@).take(
                    m - 1,
                ).push(models_of(arranged@)[m - 1]));
                lemma_items_bytes_push(
                    models_of(arranged@).take(m - 1),
                    models_of(arranged@)[m - 1],
                );
            }
        }
        proof {
            assert(models_of(arranged@).take(total as int) =~= models_of(arranged@));
        }
    }
}

/// Appending one well-formed entry to a well-formed stream parses back to
/// the old entries plus the new one.
pub proof fn lemma_parse_items_push(b: Seq<u8>, it: TreeItemM)
    requires
        spec_parse_items(b) is Some,
        item_wf(it),
    ensures
        spec_parse_items(b + item_bytes(it)) is Some,
        spec_parse_items(b + item_bytes(it))->Some_0 == spec_parse_items(b)->Some_0.push(it),
{
    lemma_parse_item_of_encoded(it, Seq::empty());
    lemma_render_digits(it.mode as nat, 8);
    assert(item_bytes(it) + Seq::<u8>::empty() =~= item_bytes(it));
    assert(spec_parse_item(item_bytes(it)) == Some((it, Seq::<u8>::empty())));
    assert(spec_parse_items(Seq::<u8>::empty()) == Some(Seq::<TreeItemM>::empty()));
    assert(item_bytes(it).len() > 0);
    assert(spec_parse_items(item_bytes(it)) == Some(seq![it] + Seq::<TreeItemM>::empty()));
    lemma_parse_items_concat(b, item_bytes(it));
    assert(spec_parse_items(b)->Some_0 + (seq![it] + Seq::<TreeItemM>::empty())
        =~= spec_parse_items(b)->Some_0.push(it));
}

/// A copy of one entry.
impl TreeItem {
    /// An owned copy of the entry.
    pub fn duplicate(&self) -> (r: TreeItem)
        ensures
            r@ == self@,
    {
        TreeItem {
            mode: self.mode,
            name: slice_to_vec(self.name.as_slice()),
            hash: slice_to_vec(self.hash.as_slice()),
        }
    }
}

/// The entries a sequence of parsed items stands for.
pub open spec fn models_of(s: Seq<TreeItem>) -> Seq<TreeItemM> {
    s.map_values(|it: TreeItem| it@)
}

/// Whether no two entries share a name.
pub open spec fn distinct_names(s: Seq<TreeItemM>) -> bool {
    forall|i: int, j: int| 0 <= i < j < s.len() ==> s[i].name != s[j].name
}

/// Every entry that parses out of a stream is well formed.
pub proof fn lemma_parsed_item_wf(b: Seq<u8>)
    ensures
        match spec_parse_item(b) {
            Some((it, rest)) => item_wf(it),
            None => true,
        },
{
    match spec_find_byte(b, 0) {
        None => {},
        Some(z) => {
            lemma_find_byte(b, 0);
            let header = b.take(z);
            let after = b.skip(z + 1);
            if after.len() >= 20 && valid_utf8(header) {
                match spec_find_byte(header, 32) {
                    None => {},
                    Some(sp) => {
                        lemma_find_byte(header, 32);
                        lemma_valid_utf8_split_after_ascii(header, sp);
                        assert(header.skip(sp + 1) =~= header.subrange(sp + 1, header.len() as int));
                        assert(forall|i: int|
                            0 <= i < header.skip(sp + 1).len() ==> #[trigger] header.skip(
                                sp + 1,
                            )[i] == b[sp + 1 + i]);
                    },
                }
            }
        },
    }
}

/// Every entry of a well-formed stream is well formed.
pub proof fn lemma_parsed_items_wf(b: Seq<u8>)
    requires
        spec_parse_items(b) is Some,
    ensures
        forall|i: int|
            0 <= i < spec_parse_items(b)->Some_0.len() ==> item_wf(
                #[trigger] spec_parse_items(b)->Some_0[i],
            ),
    decreases b.len(),
{
    if b.len() > 0 {
        lemma_parsed_item_wf(b);
        lemma_parse_item_shrinks(b);
        let (it, rest) = spec_parse_item(b)->Some_0;
        lemma_parsed_items_wf(rest);
        let s = spec_parse_items(b)->Some_0;
        assert(forall|i: int| 1 <= i < s.len() ==> s[i] == spec_parse_items(rest)->Some_0[i - 1]);
    }
}

/// A serialized entry parses back to itself, whatever follows it.
pub proof fn lemma_parse_item_of_encoded(it: TreeItemM, tail: Seq<u8>)
    requires
        item_wf(it),
    ensures
        spec_parse_item(item_bytes(it) + tail) == Some((it, tail)),
{
    broadcast use vstd::utf8::valid_utf8_concat;

    let md = spec_render(it.mode as nat, 8);
    lemma_render_digits(it.mode as nat, 8);
    let b = item_bytes(it) + tail;
    let z = md.len() + 1 + it.name.len();
    assert forall|j: int| 0 <= j < z implies b[j] != 0 by {
        if j < md.len() {
            assert(is_digit(md[j], 8));
        } else if j == md.len() {
            assert(b[j] == 32);
        } else {
            assert(b[j] == it.name[j - md.len() - 1]);
        }
    }
    assert(b[z as int] == 0);
    lemma_find_byte_exact(b, 0, z as int);
    let header = b.take(z as int);
    let after = b.skip(z as int + 1);
    assert(header =~= (md + seq![32u8]) + it.name);
    assert(after =~= it.hash + tail);
    assert(after.len() >= 20);
    assert(forall|j: int|
        0 <= j < (md + seq![32u8]).len() ==> (md + seq![32u8])[j] < 128) by {
        assert(forall|j: int| 0 <= j < md.len() ==> is_digit(#[trigger] md[j], 8));
    }
    lemma_ascii_valid_utf8(md + seq![32u8]);
    assert(valid_utf8(header));
    assert forall|j: int| 0 <= j < md.len() implies header[j] != 32 by {
        assert(is_digit(md[j], 8));
    }
    assert(header[md.len() as int] == 32);
    lemma_find_byte_exact(header, 32, md.len() as int);
    assert(header.take(md.len() as int) =~= md);
    lemma_parse_render(it.mode as nat, 8);
    assert(md[0] != 43) by {
        assert(is_digit(md[0], 8));
    }
    assert(spec_parse_plus(md, 8) == Some(it.mode as nat));
    assert(header.skip(md.len() as int + 1) =~= it.name);
    assert(after.take(20) =~= it.hash);
    assert(after.skip(20) =~= tail);
}

/// Parsing one entry is unaffected by bytes appended after the stream.
pub proof fn lemma_parse_item_extend(a: Seq<u8>, c: Seq<u8>)
    requires
        spec_parse_item(a) is Some,
    ensures
        spec_parse_item(a + c) == Some(
            (spec_parse_item(a)->Some_0.0, spec_parse_item(a)->Some_0.1 + c),
        ),
{
    let z = spec_find_byte(a, 0)->Some_0;
    lemma_find_byte(a, 0);
    let b = a + c;
    assert(b[z] == 0);
    assert(forall|j: int| 0 <= j < z ==> b[j] == a[j]);
    lemma_find_byte_exact(b, 0, z);
    assert(b.take(z) =~= a.take(z));
    assert(b.skip(z + 1) =~= a.skip(z + 1) + c);
    assert(a.skip(z + 1).len() >= 20);
    assert(b.skip(z + 1).take(20) =~= a.skip(z + 1).take(20));
    assert(b.skip(z + 1).skip(20) =~= a.skip(z + 1).skip(20) + c);
}

/// Parsing distributes over concatenation of well-formed streams.
pub proof fn lemma_parse_items_concat(a: Seq<u8>, c: Seq<u8>)
    requires
        spec_parse_items(a) is Some,
        spec_parse_items(c) is Some,
    ensures
        spec_parse_items(a + c) is Some,
        spec_parse_items(a + c)->Some_0 == spec_parse_items(a)->Some_0 + spec_parse_items(
            c,
        )->Some_0,
    decreases a.len(),
{
    if a.len() == 0 {
        assert(a + c =~= c);
        assert(spec_parse_items(a)->Some_0 + spec_parse_items(c)->Some_0 =~= spec_parse_items(
            c,
        )->Some_0);
    } else {
        let (it0, rest) = spec_parse_item(a)->Some_0;
        lemma_parse_item_extend(a, c);
        lemma_parse_item_shrinks(a);
        lemma_parse_items_concat(rest, c);
        assert((a + c).len() > 0);
        assert(seq![it0] + (spec_parse_items(rest)->Some_0 + spec_parse_items(c)->Some_0) =~= (
        seq![it0] + spec_parse_items(rest)->Some_0) + spec_parse_items(c)->Some_0);
    }
}

/// A serialized entry sequence parses back to exactly those entries. This
/// is the payload half of the round trip: decoding an encoded tree yields
/// the tree that was encoded.
pub proof fn lemma_parse_items_of_encoded(s: Seq<TreeItemM>)
    requires
        forall|i: int| 0 <= i < s.len() ==> item_wf(#[trigger] s[i]),
    ensures
        spec_parse_items(items_bytes(s)) == Some(s),
    decreases s.len(),
{
    if s.len() > 0 {
        lemma_parse_items_of_encoded(s.drop_first());
        lemma_parse_item_of_encoded(s[0], items_bytes(s.drop_first()));
        lemma_render_digits(s[0].mode as nat, 8);
        assert(items_bytes(s).len() > 0);
        assert(seq![s[0]] + s.drop_first() =~= s);
    }
}

/// Serialization treats a snoc as an append of one entry's bytes.
pub proof fn lemma_items_bytes_push(s: Seq<TreeItemM>, x: TreeItemM)
    ensures
        items_bytes(s.push(x)) == items_bytes(s) + item_bytes(x),
    decreases s.len(),
{
    if s.len() == 0 {
        let t = s.push(x);
        assert(t[0] == x);
        assert(t.drop_first() =~= Seq::<TreeItemM>::empty());
        assert(items_bytes(t) == item_bytes(x) + items_bytes(Seq::<TreeItemM>::empty()));
        assert(item_bytes(x) + Seq::<u8>::empty() =~= item_bytes(x));
        assert(items_bytes(s) =~= Seq::<u8>::empty());
        assert(items_bytes(s) + item_bytes(x) =~= item_bytes(x));
    } else {
        assert(s.push(x).drop_first() =~= s.drop_first().push(x));
        lemma_items_bytes_push(s.drop_first(), x);
        assert(items_bytes(s.push(x)) =~= items_bytes(s) + item_bytes(x));
    }
}

/// Inserting into a sequence inserts into its multiset.
proof fn lemma_to_multiset_insert<A>(s: Seq<A>, j: int, x: A)
    requires
        0 <= j <= s.len(),
    ensures
        s.insert(j, x).to_multiset() == s.to_multiset().insert(x),
{
    broadcast use vstd::multiset::group_multiset_axioms;
    broadcast use vstd::seq_lib::group_to_multiset_ensures;

    let lo = s.subrange(0, j);
    let hi = s.subrange(j, s.len() as int);
    vstd::seq_lib::lemma_multiset_commutative(lo.push(x), hi);
    vstd::seq_lib::lemma_multiset_commutative(lo, hi);
    assert(s =~= lo + hi);
    assert(lo.push(x).to_multiset() =~= lo.to_multiset().insert(x));
    assert(s.insert(j, x).to_multiset() =~= s.to_multiset().insert(x));
}

/// Two sorted entry sequences holding the same entries, with no name used
/// twice, are the same sequence: sorting canonicalizes. With the entries'
/// bytes equal, the serialized payloads and hence the resulting object
/// identifiers coincide.
pub proof fn lemma_sorted_items_unique(t1: Seq<TreeItemM>, t2: Seq<TreeItemM>)
    requires
        sorted_by_name(t1),
        sorted_by_name(t2),
        distinct_names(t1),
        t1.to_multiset() == t2.to_multiset(),
    ensures
        t1 == t2,
        items_bytes(t1) == items_bytes(t2),
    decreases t1.len(),
{
    broadcast use vstd::multiset::group_multiset_axioms;
    broadcast use vstd::seq_lib::group_to_multiset_ensures;

    if t1.len() == 0 || t2.len() == 0 {
        assert(t1.to_multiset().len() == t1.len());
        assert(t2.to_multiset().len() == t2.len());
        assert(t1 =~= t2);
    } else {
        assert(t2.to_multiset().contains(t2[0]));
        assert(t1.to_multiset().contains(t2[0]));
        assert(t1.contains(t2[0]));
        let i = choose|i: int| 0 <= i < t1.len() && t1[i] == t2[0];
        assert(t1.to_multiset().contains(t1[0]));
        assert(t2.to_multiset().contains(t1[0]));
        assert(t2.contains(t1[0]));
        let k = choose|k: int| 0 <= k < t2.len() && t2[k] == t1[0];
        if i > 0 {
            assert(bytes_le(t1[0].name, t1[i].name));
            if k > 0 {
                assert(bytes_le(t2[0].name, t2[k].name));
                lemma_bytes_le_antisym(t1[0].name, t2[0].name);
                assert(t1[0].name == t1[i].name);
                assert(false);
            } else {
                assert(t1[0] == t2[0]);
                assert(t1[0].name == t1[i].name);
                assert(false);
            }
        }
        assert(t1[0] == t2[0]);
        assert(t1.drop_first() =~= t1.remove(0));
        assert(t2.drop_first() =~= t2.remove(0));
        assert(t1.remove(0).to_multiset() =~= t1.to_multiset().remove(t1[0]));
        assert(t2.remove(0).to_multiset() =~= t2.to_multiset().remove(t2[0]));
        assert(forall|a: int, b: int|
            0 <= a < b < t1.drop_first().len() ==> t1.drop_first()[a] == t1[a + 1]
                && t1.drop_first()[b] == t1[b + 1]);
        lemma_sorted_items_unique(t1.drop_first(), t2.drop_first());
        assert(t1 =~= seq![t1[0]] + t1.drop_first());
        assert(t2 =~= seq![t2[0]] + t2.drop_first());
        assert(t1 =~= t2);
    }
}

/// Canonicalization at the object level: two sorted trees holding the
/// same entries, with no name used twice, have identical payload bytes
/// and hence identical object identifiers — whatever order their entries
/// were first added in, and however often the same directory is rebuilt.
pub proof fn lemma_tree_id_canonical(t1: TreeData, t2: TreeData)
    requires
        t1.wf(),
        t2.wf(),
        sorted_by_name(t1.spec_items()),
        sorted_by_name(t2.spec_items()),
        distinct_names(t1.spec_items()),
        t1.spec_items().to_multiset() == t2.spec_items().to_multiset(),
        t1.data@ == items_bytes(t1.spec_items()),
        t2.data@ == items_bytes(t2.spec_items()),
    ensures
        t1.data@ == t2.data@,
        Object::Tree(t1).spec_hash() == Object::Tree(t2).spec_hash(),
        Object::Tree(t1).spec_hex_id() == Object::Tree(t2).spec_hex_id(),
{
    lemma_sorted_items_unique(t1.spec_items(), t2.spec_items());
}

} // verus!

//! Commit objects: the textual record grammar (header lines, then a free
//! message), its parser, and the serializer that builds a commit's
//! canonical text. A commit's payload is kept as the raw text, exactly as
//! it is hashed and stored; the structured record is parsed out on demand.

use crate::bytesutil::{
    find_byte, lemma_find_byte, push_str_bytes, spec_find_byte, spec_trim, trim_ascii, utf8_check,
};
use crate::error::StoreError;
use crate::numbers::{
    check_hex40, is_hex40, is_hex_digit, parse_i32, parse_plus, render_tz, render_u64,
    spec_parse_i32, spec_parse_plus, spec_render, spec_render_tz,
};
use vstd::prelude::*;
use vstd::slice::{slice_subrange, slice_to_vec};
use vstd::utf8::valid_utf8;

verus! {

/// One `name <email> timestamp timezone` stamp.
pub struct PersonLine {
    /// The person's name; printable text without `<` or a line break.
    pub name: Vec<u8>,
    /// The address between the angle brackets.
    pub email: Vec<u8>,
    /// Seconds since the epoch.
    pub timestamp: u64,
    /// The offset field, a signed minute-or-HHMM value.
    pub timezone: i32,
}

/// The mathematical shape of a person stamp.
pub struct PersonM {
    /// The person's name bytes.
    pub name: Seq<u8>,
    /// The address bytes.
    pub email: Seq<u8>,
    /// Seconds since the epoch.
    pub timestamp: u64,
    /// The signed offset field.
    pub timezone: i32,
}

impl View for PersonLine {
    type V = PersonM;

    open spec fn view(&self) -> PersonM {
        PersonM {
            name: self.name@,
            email: self.email@,
            timestamp: self.timestamp,
            timezone: self.timezone,
        }
    }
}

/// The structured fields of a commit record.
pub struct CommitData {
    /// The tree the commit snapshots, as forty hexadecimal characters.
    pub tree_hash: Vec<u8>,
    /// The parent commits, each as forty hexadecimal characters.
    pub parent_hashes: Vec<Vec<u8>>,
    /// Who wrote the change.
    pub author: PersonLine,
    /// Who recorded it.
    pub committer: PersonLine,
    /// The free-text message, everything after the first empty line.
    pub message: Vec<u8>,
}

/// The mathematical shape of a commit record.
pub struct CommitM {
    /// The snapshotted tree's identifier characters.
    pub tree: Seq<u8>,
    /// The parents' identifier characters, in order.
    pub parents: Seq<Seq<u8>>,
    /// Who wrote the change.
    pub author: PersonM,
    /// Who recorded it.
    pub committer: PersonM,
    /// The message bytes.
    pub message: Seq<u8>,
}

impl View for CommitData {
    type V = CommitM;

    open spec fn view(&self) -> CommitM {
        CommitM {
            tree: self.tree_hash@,
            parents: self.parent_hashes@.map_values(|p: Vec<u8>| p@),
            author: self.author@,
            committer: self.committer@,
            message: self.message@,
        }
    }
}

/// The `tree` header tag.
pub open spec fn tag_tree() -> Seq<u8> {
    seq![116u8, 114u8, 101u8, 101u8]
}

/// The `parent` header tag.
pub open spec fn tag_parent() -> Seq<u8> {
    seq![112u8, 97u8, 114u8, 101u8, 110u8, 116u8]
}

/// The `author` header tag.
pub open spec fn tag_author() -> Seq<u8> {
    seq![97u8, 117u8, 116u8, 104u8, 111u8, 114u8]
}

/// The `committer` header tag.
pub open spec fn tag_committer() -> Seq<u8> {
    seq![99u8, 111u8, 109u8, 109u8, 105u8, 116u8, 116u8, 101u8, 114u8]
}

/// What parsing a person stamp yields: the text before the first `<` is
/// the name (trimmed), then the address up to the first `>`, then the
/// remaining text (trimmed) splits on its first space into the timestamp
/// and the timezone.
pub open spec fn spec_parse_person(v: Seq<u8>) -> Option<PersonM> {
    match spec_find_byte(v, 60) {
        None => None,
        Some(lt) => {
            let name = spec_trim(v.take(lt));
            let rest = v.skip(lt as int + 1);
            match spec_find_byte(rest, 62) {
                None => None,
                Some(gt) => {
                    let email = rest.take(gt);
                    let tail = spec_trim(rest.skip(gt + 1));
                    match spec_find_byte(tail, 32) {
                        None => None,
                        Some(sp) => {
                            match (
                                spec_parse_plus(tail.take(sp), 10),
                                spec_parse_i32(tail.skip(sp + 1)),
                            ) {
                                (Some(ts), Some(tz)) => if ts <= 0xffff_ffff_ffff_ffff {
                                    Some(
                                        PersonM {
                                            name,
                                            email,
                                            timestamp: ts as u64,
                                            timezone: tz as i32,
                                        },
                                    )
                                } else {
                                    None
                                },
                                _ => None,
                            }
                        },
                    }
                },
            }
        },
    }
}

/// The header fields gathered while scanning a commit's header lines.
pub struct HeaderState {
    /// The `tree` line's value, once seen.
    pub tree: Option<Seq<u8>>,
    /// Every `parent` line's value, in order.
    pub parents: Seq<Seq<u8>>,
    /// The `author` line's stamp, once seen.
    pub author: Option<PersonM>,
    /// The `committer` line's stamp, once seen.
    pub committer: Option<PersonM>,
}

/// The state before any header line has been read.
pub open spec fn empty_state() -> HeaderState {
    HeaderState { tree: None, parents: Seq::empty(), author: None, committer: None }
}

/// What scanning header lines from `b` in state `st` yields: the final
/// state and the message, or nothing when a line is malformed, a tag is
/// unknown, or a unique tag repeats.
pub open spec fn spec_parse_headers(b: Seq<u8>, st: HeaderState) -> Option<(HeaderState, Seq<u8>)>
    decreases b.len(),
{
    match spec_find_byte(b, 10) {
        None => None,
        Some(nl) => {
            let line = b.take(nl);
            let rest = b.skip(nl + 1);
            proof {
                lemma_find_byte(b, 10);
            }
            if line.len() == 0 {
                Some((st, rest))
            } else {
                match spec_find_byte(line, 32) {
                    None => None,
                    Some(sp) => {
                        let tag = line.take(sp);
                        let value = line.skip(sp + 1);
                        if tag == tag_tree() {
                            if st.tree is Some || !is_hex40(value) {
                                None
                            } else {
                                spec_parse_headers(
                                    rest,
                                    HeaderState {
                                        tree: Some(value),
                                        parents: st.parents,
                                        author: st.author,
                                        committer: st.committer,
                                    },
                                )
                            }
                        } else if tag == tag_author() {
                            if st.author is Some {
                                None
                            } else {
                                match spec_parse_person(value) {
                                    None => None,
                                    Some(p) => spec_parse_headers(
                                        rest,
                                        HeaderState {
                                            tree: st.tree,
                                            parents: st.parents,
                                            author: Some(p),
                                            committer: st.committer,
                                        },
                                    ),
                                }
                            }
                        } else if tag == tag_committer() {
                            if st.committer is Some {
                                None
                            } else {
                                match spec_parse_person(value) {
                                    None => None,
                                    Some(p) => spec_parse_headers(
                                        rest,
                                        HeaderState {
                                            tree: st.tree,
                                            parents: st.parents,
                                            author: st.author,
                                            committer: Some(p),
                                        },
                                    ),
                                }
                            }
                        } else if tag == tag_parent() {
                            if !is_hex40(value) {
                                None
                            } else {
                                spec_parse_headers(
                                    rest,
                                    HeaderState {
                                        tree: st.tree,
                                        parents: st.parents.push(value),
                                        author: st.author,
                                        committer: st.committer,
                                    },
                                )
                            }
                        } else {
                            None
                        }
                    },
                }
            }
        },
    }
}

/// What decoding a commit payload yields: the record, provided the bytes
/// are well-formed UTF-8, the header lines parse, and the three unique
/// tags are all present.
pub open spec fn spec_parse_commit(b: Seq<u8>) -> Option<CommitM> {
    if !valid_utf8(b) {
        None
    } else {
        match spec_parse_headers(b, empty_state()) {
            None => None,
            Some((st, msg)) => match (st.tree, st.author, st.committer) {
                (Some(t), Some(a), Some(c)) => Some(
                    CommitM { tree: t, parents: st.parents, author: a, committer: c, message: msg },
                ),
                _ => None,
            },
        }
    }
}

/// The serialization of a person stamp: name, the address in angle
/// brackets, the decimal timestamp, and the signed padded timezone.
pub open spec fn person_bytes(p: PersonM) -> Seq<u8> {
    p.name + seq![32u8, 60u8] + p.email + seq![62u8, 32u8] + spec_render(p.timestamp as nat, 10)
        + seq![32u8] + spec_render_tz(p.timezone as int)
}

/// The serialization of the parent lines, each `parent <id>` with its
/// terminating newline.
pub open spec fn parents_chunk(ps: Seq<Seq<u8>>) -> Seq<u8>
    decreases ps.len(),
{
    if ps.len() == 0 {
        Seq::empty()
    } else {
        tag_parent() + seq![32u8] + ps[0] + seq![10u8] + parents_chunk(ps.drop_first())
    }
}

/// The canonical text of a commit record: the `tree` line, the parent
/// lines, the `author` and `committer` lines, an empty line, then the
/// message.
pub open spec fn commit_text(c: CommitM) -> Seq<u8> {
    tag_tree() + seq![32u8] + c.tree + seq![10u8] + parents_chunk(c.parents) + tag_author()
        + seq![32u8] + person_bytes(c.author) + seq![10u8] + tag_committer() + seq![32u8]
        + person_bytes(c.committer) + seq![10u8] + seq![10u8] + c.message
}

/// What a person stamp must look like to survive a round trip: text
/// without the delimiter bytes that the grammar splits on, and a name
/// that trimming leaves alone.
pub open spec fn person_wf(p: PersonM) -> bool {
    &&& valid_utf8(p.name)
    &&& valid_utf8(p.email)
    &&& !p.name.contains(60u8)
    &&& !p.name.contains(10u8)
    &&& !p.email.contains(62u8)
    &&& !p.email.contains(10u8)
    &&& spec_trim(p.name + seq![32u8]) == p.name
}

/// What a commit record must look like to survive a round trip: valid
/// identifiers, well-formed stamps, and a well-formed message.
pub open spec fn commit_wf(c: CommitM) -> bool {
    &&& is_hex40(c.tree)
    &&& forall|i: int| 0 <= i < c.parents.len() ==> is_hex40(#[trigger] c.parents[i])
    &&& person_wf(c.author)
    &&& person_wf(c.committer)
    &&& valid_utf8(c.message)
}

/// The `tree` tag's bytes.
fn tree_tag_slice() -> (r: &'static [u8])
    ensures
        r@ == tag_tree(),
{
    let s: &'static str = "tree";
    let b = s.as_bytes();
    proof {
        reveal_strlit("tree");
        vstd::utf8::is_ascii_chars_encode_utf8("tree"@);
        assert(b@ =~= tag_tree());
    }
    b
}

/// The `parent` tag's bytes.
fn parent_tag_slice() -> (r: &'static [u8])
    ensures
        r@ == tag_parent(),
{
    let s: &'static str = "parent";
    let b = s.as_bytes();
    proof {
        reveal_strlit("parent");
        vstd::utf8::is_ascii_chars_encode_utf8("parent"@);
        assert(b@ =~= tag_parent());
    }
    b
}

/// The `author` tag's bytes.
fn author_tag_slice() -> (r: &'static [u8])
    ensures
        r@ == tag_author(),
{
    let s: &'static str = "author";
    let b = s.as_bytes();
    proof {
        reveal_strlit("author");
        vstd::utf8::is_ascii_chars_encode_utf8("author"@);
        assert(b@ =~= tag_author());
    }
    b
}

/// The `committer` tag's bytes.
fn committer_tag_slice() -> (r: &'static [u8])
    ensures
        r@ == tag_committer(),
{
    let s: &'static str = "committer";
    let b = s.as_bytes();
    proof {
        reveal_strlit("committer");
        vstd::utf8::is_ascii_chars_encode_utf8("committer"@);
        assert(b@ =~= tag_committer());
    }
    b
}

impl PersonLine {
    /// Parses a person stamp. Fails as `Malformed` exactly when the
    /// grammar is violated: no `<`, no `>` after it, no space in the
    /// trimmed remainder, or an unparsable timestamp or timezone.
    pub fn parse(value: &[u8]) -> (r: Result<PersonLine, StoreError>)
        ensures
            match r {
                Ok(p) => spec_parse_person(value@) == Some(p@),
                Err(e) => e == StoreError::Malformed && spec_parse_person(value@) is None,
            },
    {
        let n: usize = value.len();
        let lt = match find_byte(value, 60) {
            Some(i) => i,
            None => {
                return Err(StoreError::Malformed);
            },
        };
        proof {
            lemma_find_byte(value@, 60);
        }
        let name = trim_ascii(slice_subrange(value, 0, lt));
        let rest = slice_subrange(value, lt + 1, n);
        proof {
            assert(value@.subrange(0, lt as int) =~= value@.take(lt as int));
            assert(rest@ =~= value@.skip(lt + 1));
        }
        let rn: usize = rest.len();
        let gt = match find_byte(rest, 62) {
            Some(i) => i,
            None => {
                return Err(StoreError::Malformed);
            },
        };
        proof {
            lemma_find_byte(rest@, 62);
        }
        let email = slice_to_vec(slice_subrange(rest, 0, gt));
        let tail = trim_ascii(slice_subrange(rest, gt + 1, rn));
        proof {
            assert(rest@.subrange(0, gt as int) =~= rest@.take(gt as int));
            assert(rest@.subrange(gt + 1, rn as int) =~= rest@.skip(gt + 1));
        }
        let tn: usize = tail.len();
        let sp = match find_byte(tail.as_slice(), 32) {
            Some(i) => i,
            None => {
                return Err(StoreError::Malformed);
            },
        };
        proof {
            lemma_find_byte(tail@, 32);
        }
        let ts_part = slice_subrange(tail.as_slice(), 0, sp);
        let tz_part = slice_subrange(tail.as_slice(), sp + 1, tn);
        proof {
            assert(ts_part@ =~= tail@.take(sp as int));
            assert(tz_part@ =~= tail@.skip(sp + 1));
        }
        let ts = match parse_plus(ts_part, 10, 0xffff_ffff_ffff_ffff) {
            Some(v) => v,
            None => {
                return Err(StoreError::Malformed);
            },
        };
        let tz = match parse_i32(tz_part) {
            Some(v) => v,
            None => {
                return Err(StoreError::Malformed);
            },
        };
        Ok(PersonLine { name, email, timestamp: ts, timezone: tz })
    }
}

/// The header state that a set of partly-filled locals stands for.
pub open spec fn state_model(
    tree: Option<Vec<u8>>,
    parents: Seq<Vec<u8>>,
    author: Option<PersonLine>,
    committer: Option<PersonLine>,
) -> HeaderState {
    HeaderState {
        tree: match tree {
            Some(v) => Some(v@),
            None => None,
        },
        parents: parents.map_values(|p: Vec<u8>| p@),
        author: match author {
            Some(p) => Some(p@),
            None => None,
        },
        committer: match committer {
            Some(p) => Some(p@),
            None => None,
        },
    }
}

impl CommitData {
    /// Decodes a commit record. Fails as `Malformed` exactly when the
    /// bytes are not UTF-8, a header line is malformed, a tag is unknown
    /// or repeats, or the `tree`, `author`, or `committer` line is absent.
    pub fn parse(data: &[u8]) -> (r: Result<CommitData, StoreError>)
        ensures
            match r {
                Ok(cd) => spec_parse_commit(data@) == Some(cd@),
                Err(e) => e == StoreError::Malformed && spec_parse_commit(data@) is None,
            },
    {
        if !utf8_check(data) {
            return Err(StoreError::Malformed);
        }
        let mut tree: Option<Vec<u8>> = None;
        let mut parents: Vec<Vec<u8>> = Vec::new();
        let mut author: Option<PersonLine> = None;
        let mut committer: Option<PersonLine> = None;
        let mut rest: &[u8] = data;
        proof {
            assert(parents@.map_values(|p: Vec<u8>| p@) =~= Seq::<Seq<u8>>::empty());
            assert(state_model(None, parents@, None, None) == empty_state());
        }
        loop
            invariant
                valid_utf8(data@),
                spec_parse_headers(data@, empty_state()) == spec_parse_headers(
                    rest@,
                    state_model(tree, parents@, author, committer),
                ),
            decreases rest@.len(),
        {
            let ghost st = state_model(tree, parents@, author, committer);
            let rn: usize = rest.len();
            let nl = match find_byte(rest, 10) {
                Some(i) => i,
                None => {
                    return Err(StoreError::Malformed);
                },
            };
            proof {
                lemma_find_byte(rest@, 10);
            }
            let line = slice_subrange(rest, 0, nl);
            let after = slice_subrange(rest, nl + 1, rn);
            proof {
                assert(line@ =~= rest@.take(nl as int));
                assert(after@ =~= rest@.skip(nl + 1));
            }
            if line.len() == 0 {
                let message = slice_to_vec(after);
                match (tree, author, committer) {
                    (Some(t), Some(a), Some(c)) => {
                        let cd = CommitData {
                            tree_hash: t,
                            parent_hashes: parents,
                            author: a,
                            committer: c,
                            message,
                        };
                        proof {
                            assert(spec_parse_commit(data@) == Some(cd@));
                        }
                        return Ok(cd);
                    },
                    _ => {
                        return Err(StoreError::Malformed);
                    },
                }
            }
            let ln: usize = line.len();
            let sp = match find_byte(line, 32) {
                Some(i) => i,
                None => {
                    return Err(StoreError::Malformed);
                },
            };
            proof {
                lemma_find_byte(line@, 32);
            }
            let tag = slice_subrange(line, 0, sp);
            let value = slice_subrange(line, sp + 1, ln);
            proof {
                assert(tag@ =~= line@.take(sp as int));
                assert(value@ =~= line@.skip(sp + 1));
            }
            if crate::bytesutil::bytes_eq(tag, tree_tag_slice()) {
                if tree.is_some() || !check_hex40(value) {
                    return Err(StoreError::Malformed);
                }
                tree = Some(slice_to_vec(value));
            } else if crate::bytesutil::bytes_eq(tag, author_tag_slice()) {
                if author.is_some() {
                    return Err(StoreError::Malformed);
                }
                match PersonLine::parse(value) {
                    Ok(p) => {
                        author = Some(p);
                    },
                    Err(e) => {
                        return Err(e);
                    },
                }
            } else if crate::bytesutil::bytes_eq(tag, committer_tag_slice()) {
                if committer.is_some() {
                    return Err(StoreError::Malformed);
                }
                match PersonLine::parse(value) {
                    Ok(p) => {
                        committer = Some(p);
                    },
                    Err(e) => {
                        return Err(e);
                    },
                }
            } else if crate::bytesutil::bytes_eq(tag, parent_tag_slice()) {
                if !check_hex40(value) {
                    return Err(StoreError::Malformed);
                }
                let ghost old_parents = parents@;
                parents.push(slice_to_vec(value));
                proof {
                    assert(parents@.map_values(|p: Vec<u8>| p@) =~= old_parents.map_values(
                        |p: Vec<u8>| p@,
                    ).push(value@));
                }
            } else {
                return Err(StoreError::Malformed);
            }
            rest = after;
        }
    }
}

/// Every byte of a tag is printable ASCII.
proof fn lemma_tags_ascii()
    ensures
        forall|i: int| 0 <= i < 4 ==> 32 < #[trigger] tag_tree()[i] < 128,
        forall|i: int| 0 <= i < 6 ==> 32 < #[trigger] tag_parent()[i] < 128,
        forall|i: int| 0 <= i < 6 ==> 32 < #[trigger] tag_author()[i] < 128,
        forall|i: int| 0 <= i < 9 ==> 32 < #[trigger] tag_committer()[i] < 128,
        tag_tree() != tag_author(),
        tag_tree() != tag_committer(),
        tag_tree() != tag_parent(),
        tag_author() != tag_committer(),
        tag_author() != tag_parent(),
        tag_committer() != tag_parent(),
{
    assert(tag_parent()[0] == 112 && tag_author()[0] == 97);
}

/// Hexadecimal digits are printable ASCII: never NUL, space, or newline.
proof fn lemma_hex40_bytes(v: Seq<u8>)
    requires
        is_hex40(v),
    ensures
        forall|i: int| 0 <= i < v.len() ==> 32 < #[trigger] v[i] < 128,
{
    assert(forall|i: int| 0 <= i < 40 ==> is_hex_digit(#[trigger] v[i]));
}

/// A serialized person stamp holds no newline, is well-formed UTF-8, and
/// parses back to the stamp it came from.
#[verifier::rlimit(80)]
proof fn lemma_person_bytes_facts(p: PersonM)
    requires
        person_wf(p),
    ensures
        valid_utf8(person_bytes(p)),
        forall|i: int| 0 <= i < person_bytes(p).len() ==> #[trigger] person_bytes(p)[i] != 10,
        spec_parse_person(person_bytes(p)) == Some(p),
{
    broadcast use vstd::utf8::valid_utf8_concat;

    let dec = spec_render(p.timestamp as nat, 10);
    let tz = spec_render_tz(p.timezone as int);
    crate::numbers::lemma_render_digits(p.timestamp as nat, 10);
    crate::numbers::lemma_parse_render(p.timestamp as nat, 10);
    crate::numbers::lemma_parse_render_tz(p.timezone as int);
    let mag: nat = if p.timezone < 0 {
        (-(p.timezone as int)) as nat
    } else {
        p.timezone as nat
    };
    crate::numbers::lemma_render_digits(mag, 10);
    let pad = crate::numbers::pad4(spec_render(mag, 10));
    assert(tz.len() == 1 + pad.len());
    assert(pad.len() >= 4);
    assert forall|i: int| 0 <= i < pad.len() implies crate::numbers::is_digit(
        #[trigger] pad[i],
        10,
    ) by {
        let d = spec_render(mag, 10);
        if i >= pad.len() - d.len() {
            assert(pad[i] == d[i - (pad.len() - d.len())]);
        } else {
            assert(pad[i] == 48);
        }
    }
    let v = person_bytes(p);
    let lt = p.name.len() + 1;
    let mid = seq![62u8, 32u8] + dec + seq![32u8] + tz;
    assert(v =~= p.name + seq![32u8, 60u8] + p.email + mid);

    // no newline anywhere
    assert forall|i: int| 0 <= i < v.len() implies #[trigger] v[i] != 10 by {
        if i < p.name.len() {
            assert(v[i] == p.name[i]);
            assert(!p.name.contains(10u8));
            assert(p.name.contains(10u8) <==> exists|k: int|
                0 <= k < p.name.len() && p.name[k] == 10u8);
        } else if i < lt + 1 {
        } else if i < lt + 1 + p.email.len() {
            assert(v[i] == p.email[i - lt - 1]);
            assert(!p.email.contains(10u8));
            assert(p.email.contains(10u8) <==> exists|k: int|
                0 <= k < p.email.len() && p.email[k] == 10u8);
        } else {
            let j = i - lt - 1 - p.email.len();
            assert(v[i] == mid[j]);
            if 2 <= j < 2 + dec.len() {
                assert(crate::numbers::is_digit(dec[j - 2], 10));
            } else if j == 2 + dec.len() {
            } else if j > 2 + dec.len() {
                let k = j - 3 - dec.len();
                assert(mid[j] == tz[k]);
                if k == 0 {
                    assert(tz[0] == 43 || tz[0] == 45);
                } else {
                    assert(tz[k] == pad[k - 1]);
                    assert(crate::numbers::is_digit(pad[k - 1], 10));
                }
            }
        }
    }

    // well-formed UTF-8
    assert(valid_utf8(p.name) && valid_utf8(p.email));
    assert(forall|i: int| 0 <= i < mid.len() ==> #[trigger] mid[i] < 128) by {
        assert(forall|i: int| 0 <= i < dec.len() ==> crate::numbers::is_digit(#[trigger] dec[i], 10));
        assert(forall|i: int| 0 <= i < pad.len() ==> crate::numbers::is_digit(#[trigger] pad[i], 10));
        assert(tz[0] == 43 || tz[0] == 45);
        assert(forall|i: int| 1 <= i < tz.len() ==> #[trigger] tz[i] == pad[i - 1]);
    }
    crate::bytesutil::lemma_ascii_valid_utf8(mid);
    crate::bytesutil::lemma_ascii_valid_utf8(seq![32u8, 60u8]);
    assert(valid_utf8(p.name + seq![32u8, 60u8]));
    assert(valid_utf8((p.name + seq![32u8, 60u8]) + p.email));
    assert(valid_utf8(((p.name + seq![32u8, 60u8]) + p.email) + mid));
    assert(v =~= ((p.name + seq![32u8, 60u8]) + p.email) + mid);

    // parses back
    assert forall|j: int| 0 <= j < lt implies v[j] != 60 by {
        if j < p.name.len() {
            assert(v[j] == p.name[j]);
            assert(p.name.contains(60u8) <==> exists|k: int|
                0 <= k < p.name.len() && p.name[k] == 60u8);
        } else {
            assert(v[j] == 32);
        }
    }
    assert(v[lt as int] == 60);
    crate::bytesutil::lemma_find_byte_exact(v, 60, lt as int);
    assert(v.take(lt as int) =~= p.name + seq![32u8]);
    let rest = v.skip(lt as int + 1);
    assert(rest =~= p.email + mid);
    assert forall|j: int| 0 <= j < p.email.len() implies rest[j] != 62 by {
        assert(rest[j] == p.email[j]);
        assert(p.email.contains(62u8) <==> exists|k: int|
            0 <= k < p.email.len() && p.email[k] == 62u8);
    }
    assert(rest[p.email.len() as int] == 62);
    crate::bytesutil::lemma_find_byte_exact(rest, 62, p.email.len() as int);
    assert(rest.take(p.email.len() as int) =~= p.email);
    let tail0 = rest.skip(p.email.len() as int + 1);
    assert(tail0 =~= seq![32u8] + (dec + seq![32u8] + tz));
    crate::bytesutil::lemma_trim_drop_leading(dec + seq![32u8] + tz);
    let clean = dec + seq![32u8] + tz;
    assert(!crate::bytesutil::is_ascii_space(clean[0])) by {
        assert(crate::numbers::is_digit(dec[0], 10));
    }
    assert(!crate::bytesutil::is_ascii_space(clean.last())) by {
        assert(clean.last() == tz.last());
        assert(tz.last() == pad.last());
        assert(crate::numbers::is_digit(pad.last(), 10));
    }
    crate::bytesutil::lemma_trim_clean(clean);
    assert(spec_trim(tail0) == clean);
    assert forall|j: int| 0 <= j < dec.len() implies clean[j] != 32 by {
        assert(crate::numbers::is_digit(dec[j], 10));
    }
    assert(clean[dec.len() as int] == 32);
    crate::bytesutil::lemma_find_byte_exact(clean, 32, dec.len() as int);
    assert(clean.take(dec.len() as int) =~= dec);
    assert(clean.skip(dec.len() as int + 1) =~= tz);
    assert(dec[0] != 43) by {
        assert(crate::numbers::is_digit(dec[0], 10));
    }
    assert(spec_parse_plus(dec, 10) == Some(p.timestamp as nat));
    assert(spec_parse_i32(tz) == Some(p.timezone as int));
}

/// The header lines that follow the `tree` line: the parent lines, the
/// two person lines, and the empty line before the message.
pub open spec fn header_suffix(ps: Seq<Seq<u8>>, a: PersonM, c: PersonM, msg: Seq<u8>) -> Seq<u8> {
    parents_chunk(ps) + tag_author() + seq![32u8] + person_bytes(a) + seq![10u8] + tag_committer()
        + seq![32u8] + person_bytes(c) + seq![10u8] + seq![10u8] + msg
}

/// The parent lines are printable ASCII.
proof fn lemma_parents_chunk_ascii(ps: Seq<Seq<u8>>)
    requires
        forall|i: int| 0 <= i < ps.len() ==> is_hex40(#[trigger] ps[i]),
    ensures
        forall|i: int| 0 <= i < parents_chunk(ps).len() ==> #[trigger] parents_chunk(ps)[i] < 128,
    decreases ps.len(),
{
    if ps.len() > 0 {
        lemma_tags_ascii();
        lemma_hex40_bytes(ps[0]);
        lemma_parents_chunk_ascii(ps.drop_first());
        let head = tag_parent() + seq![32u8] + ps[0] + seq![10u8];
        assert forall|i: int| 0 <= i < parents_chunk(ps).len() implies #[trigger] parents_chunk(
            ps,
        )[i] < 128 by {
            if i < head.len() {
                assert(parents_chunk(ps)[i] == head[i]);
            } else {
                assert(parents_chunk(ps)[i] == parents_chunk(ps.drop_first())[i - head.len()]);
            }
        }
    }
}

/// A line without newlines followed by a newline and the rest splits
/// exactly there.
proof fn lemma_headers_split_line(line: Seq<u8>, rest: Seq<u8>)
    requires
        forall|j: int| 0 <= j < line.len() ==> #[trigger] line[j] != 10,
    ensures
        spec_find_byte(line + seq![10u8] + rest, 10) == Some(line.len() as int),
        (line + seq![10u8] + rest).take(line.len() as int) == line,
        (line + seq![10u8] + rest).skip(line.len() as int + 1) == rest,
{
    let b = line + seq![10u8] + rest;
    assert(b[line.len() as int] == 10);
    crate::bytesutil::lemma_find_byte_exact(b, 10, line.len() as int);
    assert(b.take(line.len() as int) =~= line);
    assert(b.skip(line.len() as int + 1) =~= rest);
}

/// A header line splits at the space after its tag.
proof fn lemma_tag_line(tag: Seq<u8>, value: Seq<u8>)
    requires
        forall|j: int| 0 <= j < tag.len() ==> 32 < #[trigger] tag[j] < 128,
    ensures
        spec_find_byte(tag + seq![32u8] + value, 32) == Some(tag.len() as int),
        (tag + seq![32u8] + value).take(tag.len() as int) == tag,
        (tag + seq![32u8] + value).skip(tag.len() as int + 1) == value,
        (tag + seq![32u8] + value).len() > 0,
{
    let line = tag + seq![32u8] + value;
    assert(line[tag.len() as int] == 32);
    assert forall|j: int| 0 <= j < tag.len() implies line[j] != 32 by {
        assert(line[j] == tag[j]);
    }
    crate::bytesutil::lemma_find_byte_exact(line, 32, tag.len() as int);
    assert(line.take(tag.len() as int) =~= tag);
    assert(line.skip(tag.len() as int + 1) =~= value);
}

/// An empty line ends the headers: what follows is the message.
proof fn lemma_empty_line(rest: Seq<u8>, st: HeaderState)
    ensures
        spec_parse_headers(seq![10u8] + rest, st) == Some((st, rest)),
{
    let b = seq![10u8] + rest;
    assert(b[0] == 10);
    crate::bytesutil::lemma_find_byte_exact(b, 10, 0);
    assert(b.take(0).len() == 0);
    assert(b.skip(1) =~= rest);
}

/// Scanning an `author` line records the stamp and moves on.
proof fn lemma_author_line(a: PersonM, rest: Seq<u8>, st: HeaderState)
    requires
        person_wf(a),
        st.author is None,
    ensures
        spec_parse_headers(tag_author() + seq![32u8] + person_bytes(a) + seq![10u8] + rest, st)
            == spec_parse_headers(
            rest,
            HeaderState {
                tree: st.tree,
                parents: st.parents,
                author: Some(a),
                committer: st.committer,
            },
        ),
{
    lemma_tags_ascii();
    lemma_person_bytes_facts(a);
    let pa = person_bytes(a);
    let line = tag_author() + seq![32u8] + pa;
    assert forall|j: int| 0 <= j < line.len() implies #[trigger] line[j] != 10 by {
        if j < 6 {
            assert(line[j] == tag_author()[j]);
        } else if j == 6 {
            assert(line[j] == 32);
        } else {
            assert(line[j] == pa[j - 7]);
        }
    }
    lemma_headers_split_line(line, rest);
    lemma_tag_line(tag_author(), pa);
    assert(tag_author() + seq![32u8] + pa + seq![10u8] + rest =~= line + seq![10u8] + rest);
}

/// Scanning a `committer` line records the stamp and moves on.
proof fn lemma_committer_line(c: PersonM, rest: Seq<u8>, st: HeaderState)
    requires
        person_wf(c),
        st.committer is None,
    ensures
        spec_parse_headers(tag_committer() + seq![32u8] + person_bytes(c) + seq![10u8] + rest, st)
            == spec_parse_headers(
            rest,
            HeaderState {
                tree: st.tree,
                parents: st.parents,
                author: st.author,
                committer: Some(c),
            },
        ),
{
    lemma_tags_ascii();
    lemma_person_bytes_facts(c);
    let pc = person_bytes(c);
    let line = tag_committer() + seq![32u8] + pc;
    assert forall|j: int| 0 <= j < line.len() implies #[trigger] line[j] != 10 by {
        if j < 9 {
            assert(line[j] == tag_committer()[j]);
        } else if j == 9 {
            assert(line[j] == 32);
        } else {
            assert(line[j] == pc[j - 10]);
        }
    }
    lemma_headers_split_line(line, rest);
    lemma_tag_line(tag_committer(), pc);
    assert(tag_committer() + seq![32u8] + pc + seq![10u8] + rest =~= line + seq![10u8] + rest);
}

/// Scanning a `parent` line records the identifier and moves on.
proof fn lemma_parent_line(p: Seq<u8>, rest: Seq<u8>, st: HeaderState)
    requires
        is_hex40(p),
    ensures
        spec_parse_headers(tag_parent() + seq![32u8] + p + seq![10u8] + rest, st)
            == spec_parse_headers(
            rest,
            HeaderState {
                tree: st.tree,
                parents: st.parents.push(p),
                author: st.author,
                committer: st.committer,
            },
        ),
{
    lemma_tags_ascii();
    lemma_hex40_bytes(p);
    let line = tag_parent() + seq![32u8] + p;
    assert forall|j: int| 0 <= j < line.len() implies #[trigger] line[j] != 10 by {
        if j < 6 {
            assert(line[j] == tag_parent()[j]);
        } else if j == 6 {
            assert(line[j] == 32);
        } else {
            assert(line[j] == p[j - 7]);
        }
    }
    lemma_headers_split_line(line, rest);
    lemma_tag_line(tag_parent(), p);
    assert(tag_parent() + seq![32u8] + p + seq![10u8] + rest =~= line + seq![10u8] + rest);
}

/// Scanning a `tree` line records the identifier and moves on.
proof fn lemma_tree_line(t: Seq<u8>, rest: Seq<u8>, st: HeaderState)
    requires
        is_hex40(t),
        st.tree is None,
    ensures
        spec_parse_headers(tag_tree() + seq![32u8] + t + seq![10u8] + rest, st)
            == spec_parse_headers(
            rest,
            HeaderState {
                tree: Some(t),
                parents: st.parents,
                author: st.author,
                committer: st.committer,
            },
        ),
{
    lemma_tags_ascii();
    lemma_hex40_bytes(t);
    let line = tag_tree() + seq![32u8] + t;
    assert forall|j: int| 0 <= j < line.len() implies #[trigger] line[j] != 10 by {
        if j < 4 {
            assert(line[j] == tag_tree()[j]);
        } else if j == 4 {
            assert(line[j] == 32);
        } else {
            assert(line[j] == t[j - 5]);
        }
    }
    lemma_headers_split_line(line, rest);
    lemma_tag_line(tag_tree(), t);
    assert(tag_tree() + seq![32u8] + t + seq![10u8] + rest =~= line + seq![10u8] + rest);
}

/// Scanning the header lines after the `tree` line gathers the parents and
/// the two stamps, and stops at the empty line before the message.
proof fn lemma_headers_of_suffix(
    ps: Seq<Seq<u8>>,
    a: PersonM,
    c: PersonM,
    msg: Seq<u8>,
    st: HeaderState,
)
    requires
        person_wf(a),
        person_wf(c),
        st.author is None,
        st.committer is None,
        forall|i: int| 0 <= i < ps.len() ==> is_hex40(#[trigger] ps[i]),
    ensures
        spec_parse_headers(header_suffix(ps, a, c, msg), st) == Some(
            (
                HeaderState {
                    tree: st.tree,
                    parents: st.parents + ps,
                    author: Some(a),
                    committer: Some(c),
                },
                msg,
            ),
        ),
    decreases ps.len(),
{
    let b = header_suffix(ps, a, c, msg);
    if ps.len() == 0 {
        let pa = person_bytes(a);
        let pc = person_bytes(c);
        let rest2 = seq![10u8] + msg;
        let rest1 = tag_committer() + seq![32u8] + pc + seq![10u8] + rest2;
        assert(b =~= tag_author() + seq![32u8] + pa + seq![10u8] + rest1);
        lemma_author_line(a, rest1, st);
        let st2 = HeaderState {
            tree: st.tree,
            parents: st.parents,
            author: Some(a),
            committer: st.committer,
        };
        lemma_committer_line(c, rest2, st2);
        let st3 = HeaderState {
            tree: st.tree,
            parents: st.parents,
            author: Some(a),
            committer: Some(c),
        };
        lemma_empty_line(msg, st3);
        assert(st.parents + ps =~= st.parents);
    } else {
        let tail = header_suffix(ps.drop_first(), a, c, msg);
        assert(b =~= tag_parent() + seq![32u8] + ps[0] + seq![10u8] + tail) by {
            assert(parents_chunk(ps) == tag_parent() + seq![32u8] + ps[0] + seq![10u8]
                + parents_chunk(ps.drop_first()));
        }
        lemma_parent_line(ps[0], tail, st);
        let st2 = HeaderState {
            tree: st.tree,
            parents: st.parents.push(ps[0]),
            author: st.author,
            committer: st.committer,
        };
        lemma_headers_of_suffix(ps.drop_first(), a, c, msg, st2);
        assert(st.parents.push(ps[0]) + ps.drop_first() =~= st.parents + ps);
    }
}

/// The text of a well-formed commit record is well-formed UTF-8.
proof fn lemma_commit_text_utf8(c: CommitM)
    requires
        commit_wf(c),
    ensures
        valid_utf8(commit_text(c)),
{
    broadcast use vstd::utf8::valid_utf8_concat;

    lemma_tags_ascii();
    lemma_hex40_bytes(c.tree);
    lemma_person_bytes_facts(c.author);
    lemma_person_bytes_facts(c.committer);
    lemma_parents_chunk_ascii(c.parents);
    let chunk1 = tag_tree() + seq![32u8] + c.tree + seq![10u8] + parents_chunk(c.parents)
        + tag_author() + seq![32u8];
    let chunk2 = seq![10u8] + tag_committer() + seq![32u8];
    let chunk3 = seq![10u8, 10u8];
    assert(forall|i: int| 0 <= i < chunk1.len() ==> #[trigger] chunk1[i] < 128) by {
        let pre = tag_tree() + seq![32u8] + c.tree + seq![10u8];
        assert forall|i: int| 0 <= i < chunk1.len() implies #[trigger] chunk1[i] < 128 by {
            if i < pre.len() {
                assert(chunk1[i] == pre[i]);
            } else if i < pre.len() + parents_chunk(c.parents).len() {
                assert(chunk1[i] == parents_chunk(c.parents)[i - pre.len()]);
            }
        }
    }
    crate::bytesutil::lemma_ascii_valid_utf8(chunk1);
    crate::bytesutil::lemma_ascii_valid_utf8(chunk2);
    crate::bytesutil::lemma_ascii_valid_utf8(chunk3);
    assert(valid_utf8(chunk1 + person_bytes(c.author)));
    assert(valid_utf8((chunk1 + person_bytes(c.author)) + chunk2));
    assert(valid_utf8(((chunk1 + person_bytes(c.author)) + chunk2) + person_bytes(c.committer)));
    assert(valid_utf8((((chunk1 + person_bytes(c.author)) + chunk2) + person_bytes(c.committer))
        + chunk3));
    assert(valid_utf8(((((chunk1 + person_bytes(c.author)) + chunk2) + person_bytes(c.committer))
        + chunk3) + c.message));
    assert(commit_text(c) =~= ((((chunk1 + person_bytes(c.author)) + chunk2) + person_bytes(
        c.committer,
    )) + chunk3) + c.message);
}

/// The serialized text of a well-formed commit record decodes back to
/// exactly that record: the payload half of the round trip.
pub proof fn lemma_parse_commit_of_text(c: CommitM)
    requires
        commit_wf(c),
    ensures
        spec_parse_commit(commit_text(c)) == Some(c),
{
    lemma_commit_text_utf8(c);
    let b = commit_text(c);
    let suffix = header_suffix(c.parents, c.author, c.committer, c.message);
    assert(b =~= tag_tree() + seq![32u8] + c.tree + seq![10u8] + suffix);
    lemma_tree_line(c.tree, suffix, empty_state());
    let st1 = HeaderState {
        tree: Some(c.tree),
        parents: Seq::empty(),
        author: None,
        committer: None,
    };
    lemma_headers_of_suffix(c.parents, c.author, c.committer, c.message, st1);
    assert(Seq::<Seq<u8>>::empty() + c.parents =~= c.parents);
}

/// Serialization treats one more parent as an appended parent line.
proof fn lemma_parents_chunk_push(ps: Seq<Seq<u8>>, p: Seq<u8>)
    ensures
        parents_chunk(ps.push(p)) == parents_chunk(ps) + (tag_parent() + seq![32u8] + p
            + seq![10u8]),
    decreases ps.len(),
{
    let line = tag_parent() + seq![32u8] + p + seq![10u8];
    if ps.len() == 0 {
        let t = ps.push(p);
        assert(t[0] == p);
        assert(t.drop_first() =~= Seq::<Seq<u8>>::empty());
        assert(parents_chunk(t) == tag_parent() + seq![32u8] + t[0] + seq![10u8] + parents_chunk(
            t.drop_first(),
        ));
        assert(parents_chunk(t.drop_first()) == Seq::<u8>::empty());
        assert(parents_chunk(t) =~= line);
        assert(parents_chunk(ps) + line =~= line);
    } else {
        assert(ps.push(p).drop_first() =~= ps.drop_first().push(p));
        lemma_parents_chunk_push(ps.drop_first(), p);
        assert(parents_chunk(ps.push(p)) =~= parents_chunk(ps) + line);
    }
}

/// Appends a person stamp's serialization to a byte buffer.
fn push_person(buf: &mut Vec<u8>, p: &PersonLine)
    ensures
        final(buf)@ == old(buf)@ + person_bytes(p@),
{
    let mut name = slice_to_vec(p.name.as_slice());
    buf.append(&mut name);
    buf.push(32);
    buf.push(60);
    let mut email = slice_to_vec(p.email.as_slice());
    buf.append(&mut email);
    buf.push(62);
    buf.push(32);
    let mut ts = render_u64(p.timestamp, 10);
    buf.append(&mut ts);
    buf.push(32);
    let mut tz = render_tz(p.timezone);
    buf.append(&mut tz);
    proof {
        assert(buf@ =~= old(buf)@ + person_bytes(p@));
    }
}

impl CommitData {
    /// Whether the fields can be serialized and decoded back unchanged:
    /// valid identifiers, stamps without the delimiter bytes, and a
    /// well-formed message.
    pub fn check_wf(&self) -> (r: bool)
        ensures
            r == commit_wf(self@),
    {
        if !check_hex40(self.tree_hash.as_slice()) {
            return false;
        }
        let np: usize = self.parent_hashes.len();
        let mut i: usize = 0;
        while i < np
            invariant
                np == self.parent_hashes@.len(),
                i <= np,
                forall|j: int| 0 <= j < i ==> is_hex40(#[trigger] self@.parents[j]),
            decreases np - i,
        {
            if !check_hex40(self.parent_hashes[i].as_slice()) {
                proof {
                    assert(!is_hex40(self@.parents[i as int]));
                }
                return false;
            }
            proof {
                assert(is_hex40(self@.parents[i as int]));
            }
            i = i + 1;
        }
        if !person_check(&self.author) {
            return false;
        }
        if !person_check(&self.committer) {
            return false;
        }
        utf8_check(self.message.as_slice())
    }

    /// Builds the canonical commit text from the fields. `check_wf`
    /// decides whether a record is fit for this.
    pub fn to_commit(&self) -> (r: Commit)
        requires
            commit_wf(self@),
        ensures
            r.text@ == commit_text(self@),
            r.wf(),
            r.spec_data() == self@,
    {
        let mut buf: Vec<u8> = Vec::new();
        let mut tt = slice_to_vec(tree_tag_slice());
        buf.append(&mut tt);
        buf.push(32);
        let mut th = slice_to_vec(self.tree_hash.as_slice());
        buf.append(&mut th);
        buf.push(10);
        let ghost pre = buf@;
        proof {
            assert(self@.parents.take(0) =~= Seq::<Seq<u8>>::empty());
            assert(pre + parents_chunk(self@.parents.take(0)) =~= pre);
        }
        let np: usize = self.parent_hashes.len();
        let mut i: usize = 0;
        while i < np
            invariant
                np == self.parent_hashes@.len(),
                np == self@.parents.len(),
                i <= np,
                buf@ == pre + parents_chunk(self@.parents.take(i as int)),
            decreases np - i,
        {
            let mut pt = slice_to_vec(parent_tag_slice());
            buf.append(&mut pt);
            buf.push(32);
            let mut ph = slice_to_vec(self.parent_hashes[i].as_slice());
            buf.append(&mut ph);
            buf.push(10);
            i = i + 1;
            proof {
                lemma_parents_chunk_push(self@.parents.take(i - 1), self@.parents[i - 1]);
                assert(self@.parents.take(i as int) =~= self@.parents.take(i - 1).push(
                    self@.parents[i - 1],
                ));
                assert(self@.parents[i - 1] == self.parent_hashes@[i - 1]@);
                assert(buf@ =~= pre + parents_chunk(self@.parents.take(i as int)));
            }
        }
        proof {
            assert(self@.parents.take(np as int) =~= self@.parents);
        }
        let mut at = slice_to_vec(author_tag_slice());
        buf.append(&mut at);
        buf.push(32);
        push_person(&mut buf, &self.author);
        buf.push(10);
        let mut ct = slice_to_vec(committer_tag_slice());
        buf.append(&mut ct);
        buf.push(32);
        push_person(&mut buf, &self.committer);
        buf.push(10);
        buf.push(10);
        let mut msg = slice_to_vec(self.message.as_slice());
        buf.append(&mut msg);
        proof {
            assert(buf@ =~= commit_text(self@));
            lemma_parse_commit_of_text(self@);
        }
        Commit { text: buf }
    }
}

/// Whether one stamp survives serialization and decoding unchanged.
fn person_check(p: &PersonLine) -> (r: bool)
    ensures
        r == person_wf(p@),
{
    if !utf8_check(p.name.as_slice()) {
        return false;
    }
    if !utf8_check(p.email.as_slice()) {
        return false;
    }
    proof {
        lemma_find_contains(p.name@, 60);
        lemma_find_contains(p.name@, 10);
        lemma_find_contains(p.email@, 62);
        lemma_find_contains(p.email@, 10);
    }
    match find_byte(p.name.as_slice(), 60) {
        Some(_) => {
            return false;
        },
        None => {},
    }
    match find_byte(p.name.as_slice(), 10) {
        Some(_) => {
            return false;
        },
        None => {},
    }
    match find_byte(p.email.as_slice(), 62) {
        Some(_) => {
            return false;
        },
        None => {},
    }
    match find_byte(p.email.as_slice(), 10) {
        Some(_) => {
            return false;
        },
        None => {},
    }
    let mut padded = slice_to_vec(p.name.as_slice());
    padded.push(32);
    proof {
        assert(padded@ =~= p.name@ + seq![32u8]);
    }
    let trimmed = trim_ascii(padded.as_slice());
    crate::bytesutil::bytes_eq(trimmed.as_slice(), p.name.as_slice())
}

/// A byte occurs in a sequence exactly when searching finds it.
proof fn lemma_find_contains(s: Seq<u8>, t: u8)
    ensures
        s.contains(t) <==> spec_find_byte(s, t) is Some,
{
    lemma_find_byte(s, t);
    if s.contains(t) {
        assert(exists|i: int| 0 <= i < s.len() && s[i] == t);
    }
    match spec_find_byte(s, t) {
        Some(i) => {
            assert(s[i] == t);
        },
        None => {},
    }
}

/// A commit object's payload: the raw record text, exactly as it is
/// hashed and stored.
pub struct Commit {
    /// The record text. A well-formed commit's text parses as a record.
    pub text: Vec<u8>,
}

impl Commit {
    /// A commit payload is well formed when its text parses as a record.
    pub open spec fn wf(&self) -> bool {
        spec_parse_commit(self.text@) is Some
    }

    /// The record the text parses into.
    pub open spec fn spec_data(&self) -> CommitM {
        spec_parse_commit(self.text@)->Some_0
    }

    /// Decodes a commit payload, keeping the raw text byte for byte.
    /// Fails as `Malformed` exactly when the record does not parse.
    pub fn from_bytes(data: &[u8]) -> (r: Result<Commit, StoreError>)
        ensures
            match r {
                Ok(cm) => cm.text@ == data@ && cm.wf(),
                Err(e) => e == StoreError::Malformed && spec_parse_commit(data@) is None,
            },
    {
        match CommitData::parse(data) {
            Ok(_) => Ok(Commit { text: slice_to_vec(data) }),
            Err(e) => Err(e),
        }
    }

    /// The structured record, parsed back out of the text.
    pub fn data(&self) -> (r: CommitData)
        requires
            self.wf(),
        ensures
            r@ == self.spec_data(),
    {
        match CommitData::parse(self.text.as_slice()) {
            Ok(cd) => cd,
            Err(_) => {
                proof {
                    assert(false);
                }
                vstd::pervasive::unreached()
            },
        }
    }

    /// The record text.
    pub fn bytes(&self) -> (r: &[u8])
        ensures
            r@ == self.text@,
    {
        self.text.as_slice()
    }
}

} // verus!

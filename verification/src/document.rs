use vstd::prelude::*;

use crate::json_scan::{
    scan_from, scan_init, wf_props_text, lemma_scan_bounds, lemma_scan_window, scan_object,
    QUOTE, BSLASH, LBRACK, RBRACK, LBRACE, RBRACE, COMMA, COLON, SLASH,
};

verus! {

/// Errors of the document codec: a file that cannot be opened, or bytes that
/// do not hold a document in the canonical on-disk form.
#[derive(Clone, Copy, Debug, PartialEq, Eq, Structural)]
pub enum ReadJsonError {
    FileOpenError,
    JsonParseError,
}

/// The mathematical value of one block: its identifier and type tag as byte
/// strings, and its whole property table as the text of one JSON object.
pub ghost struct BlockModel {
    pub id: Seq<u8>,
    pub ty: Seq<u8>,
    pub props: Seq<u8>,
}

/// The mathematical value of one document: its blocks in stored order.
pub ghost struct DocModel {
    pub blocks: Seq<BlockModel>,
}

/// A byte string the encoder can put inside a JSON string literal: every
/// byte is printable or one of the control bytes that have a short escape.
pub open spec fn encodable_str(s: Seq<u8>) -> bool {
    forall|k: int|
        0 <= k < s.len() ==> s[k] >= 32 || s[k] == 8 || s[k] == 9 || s[k] == 10 || s[k] == 12
            || s[k] == 13
}

pub open spec fn wf_block(b: BlockModel) -> bool {
    &&& encodable_str(b.id)
    &&& encodable_str(b.ty)
    &&& wf_props_text(b.props)
}

pub open spec fn wf_doc(d: DocModel) -> bool {
    forall|k: int| 0 <= k < d.blocks.len() ==> wf_block(#[trigger] d.blocks[k])
}

// The fixed byte frames of the canonical form:
// `{"blocks":[`  then the blocks separated by commas, then `]}`;
// each block is `{"id":"` id `","type":"` ty `","props":` props `}`.
pub open spec fn lit_doc_open() -> Seq<u8> {
    seq![123u8, 34u8, 98u8, 108u8, 111u8, 99u8, 107u8, 115u8, 34u8, 58u8, 91u8]
}

pub open spec fn lit_id_open() -> Seq<u8> {
    seq![123u8, 34u8, 105u8, 100u8, 34u8, 58u8, 34u8]
}

pub open spec fn lit_type_mid() -> Seq<u8> {
    seq![34u8, 44u8, 34u8, 116u8, 121u8, 112u8, 101u8, 34u8, 58u8, 34u8]
}

pub open spec fn lit_props_mid() -> Seq<u8> {
    seq![34u8, 44u8, 34u8, 112u8, 114u8, 111u8, 112u8, 115u8, 34u8, 58u8]
}

/// The escaped form of one byte inside a JSON string literal: quote,
/// backslash and the short-escape control bytes take two bytes, the rest
/// pass through.
pub open spec fn esc_one(b: u8) -> Seq<u8> {
    if b == QUOTE {
        seq![BSLASH, QUOTE]
    } else if b == BSLASH {
        seq![BSLASH, BSLASH]
    } else if b == 8 {
        seq![BSLASH, 98u8]
    } else if b == 12 {
        seq![BSLASH, 102u8]
    } else if b == 10 {
        seq![BSLASH, 110u8]
    } else if b == 13 {
        seq![BSLASH, 114u8]
    } else if b == 9 {
        seq![BSLASH, 116u8]
    } else {
        seq![b]
    }
}

/// The escaped form of a whole string body.
pub open spec fn esc_str(s: Seq<u8>) -> Seq<u8>
    decreases s.len(),
{
    if s.len() == 0 {
        Seq::empty()
    } else {
        esc_one(s[0]) + esc_str(s.drop_first())
    }
}

pub proof fn lemma_esc_str_concat(u: Seq<u8>, v: Seq<u8>)
    ensures
        esc_str(u + v) == esc_str(u) + esc_str(v),
    decreases u.len(),
{
    if u.len() == 0 {
        assert(u + v =~= v);
        assert(esc_str(u + v) =~= esc_str(u) + esc_str(v));
    } else {
        assert((u + v)[0] == u[0]);
        assert((u + v).drop_first() =~= u.drop_first() + v);
        lemma_esc_str_concat(u.drop_first(), v);
        assert(esc_str(u + v) =~= esc_str(u) + esc_str(v));
    }
}

/// Canonical serialisation of one block.
pub open spec fn ser_block(b: BlockModel) -> Seq<u8> {
    lit_id_open() + esc_str(b.id) + lit_type_mid() + esc_str(b.ty) + lit_props_mid() + b.props
        + seq![RBRACE]
}

/// Canonical serialisation of a block list, comma separated.
pub open spec fn ser_blocks(bs: Seq<BlockModel>) -> Seq<u8>
    decreases bs.len(),
{
    if bs.len() == 0 {
        Seq::empty()
    } else if bs.len() == 1 {
        ser_block(bs[0])
    } else {
        ser_block(bs[0]) + seq![COMMA] + ser_blocks(bs.drop_first())
    }
}

/// Canonical serialisation of a whole document.
pub open spec fn ser_doc(d: DocModel) -> Seq<u8> {
    lit_doc_open() + ser_blocks(d.blocks) + seq![RBRACK, RBRACE]
}

pub proof fn lemma_ser_blocks_concat(u: Seq<BlockModel>, v: Seq<BlockModel>)
    requires
        u.len() > 0,
        v.len() > 0,
    ensures
        ser_blocks(u + v) == ser_blocks(u) + seq![COMMA] + ser_blocks(v),
    decreases u.len(),
{
    if u.len() == 1 {
        assert((u + v)[0] == u[0]);
        assert((u + v).drop_first() =~= v);
        assert((u + v).len() >= 2);
        assert(ser_blocks(u + v) == ser_block(u[0]) + seq![COMMA] + ser_blocks(v));
        assert(ser_blocks(u) == ser_block(u[0]));
    } else {
        assert((u + v)[0] == u[0]);
        assert((u + v).drop_first() =~= u.drop_first() + v);
        lemma_ser_blocks_concat(u.drop_first(), v);
        assert(ser_blocks(u + v) == ser_block(u[0]) + seq![COMMA] + ser_blocks(u.drop_first() + v));
        assert(ser_blocks(u + v) =~= ser_blocks(u) + seq![COMMA] + ser_blocks(v));
    }
}

pub proof fn lemma_ser_blocks_take_succ(bs: Seq<BlockModel>, k: int)
    requires
        0 <= k < bs.len(),
    ensures
        k == 0 ==> ser_blocks(bs.take(1)) == ser_block(bs[0]),
        k > 0 ==> ser_blocks(bs.take(k + 1))
            == ser_blocks(bs.take(k)) + seq![COMMA] + ser_block(bs[k]),
{
    if k == 0 {
        assert(bs.take(1).len() == 1);
        assert(bs.take(1)[0] == bs[0]);
    } else {
        let single = seq![bs[k]];
        assert(bs.take(k + 1) =~= bs.take(k) + single);
        lemma_ser_blocks_concat(bs.take(k), single);
        assert(ser_blocks(single) == ser_block(bs[k]));
    }
}

/// One block of a document: an identifier, an open type tag, and the full
/// property table as canonical JSON-object text.
pub struct Block {
    pub id: Vec<u8>,
    pub ty: Vec<u8>,
    pub props: Vec<u8>,
}

impl View for Block {
    type V = BlockModel;

    open spec fn view(&self) -> BlockModel {
        BlockModel { id: self.id@, ty: self.ty@, props: self.props@ }
    }
}

impl Block {
    pub open spec fn wf(&self) -> bool {
        wf_block(self@)
    }
}

/// A document: the decoded content of one file, an ordered sequence of blocks.
pub struct Document {
    pub blocks: Vec<Block>,
}

impl View for Document {
    type V = DocModel;

    open spec fn view(&self) -> DocModel {
        DocModel { blocks: self.blocks@.map_values(|b: Block| b@) }
    }
}

/// Position of the first block with the given identifier, scanning from `i`.
pub open spec fn locate_from(blocks: Seq<BlockModel>, id: Seq<u8>, i: int) -> Option<int>
    decreases blocks.len() - i,
{
    if i < 0 || i >= blocks.len() {
        None
    } else if blocks[i].id == id {
        Some(i)
    } else {
        locate_from(blocks, id, i + 1)
    }
}

pub open spec fn locate_spec(d: DocModel, id: Seq<u8>) -> Option<int> {
    locate_from(d.blocks, id, 0)
}

/// The document with the block at `ix` carrying `props` as its whole
/// property table, and everything else unchanged.
pub open spec fn update_doc(d: DocModel, ix: int, props: Seq<u8>) -> DocModel {
    DocModel {
        blocks: d.blocks.update(
            ix,
            BlockModel { id: d.blocks[ix].id, ty: d.blocks[ix].ty, props },
        ),
    }
}

pub fn eq_bytes(a: &[u8], b: &[u8]) -> (r: bool)
    ensures
        r == (a@ == b@),
{
    if a.len() != b.len() {
        proof {
            assert(a@.len() != b@.len());
        }
        return false;
    }
    let mut i: usize = 0;
    while i < a.len()
        invariant
            0 <= i <= a@.len(),
            a@.len() == b@.len(),
            forall|k: int| 0 <= k < i ==> a@[k] == b@[k],
        decreases a@.len() - i,
    {
        if a[i] != b[i] {
            return false;
        }
        i = i + 1;
    }
    proof {
        assert(a@ =~= b@);
    }
    true
}

pub fn copy_bytes(s: &[u8]) -> (r: Vec<u8>)
    ensures
        r@ == s@,
{
    let mut out: Vec<u8> = Vec::new();
    let mut i: usize = 0;
    while i < s.len()
        invariant
            0 <= i <= s@.len(),
            out@ =~= s@.take(i as int),
        decreases s@.len() - i,
    {
        out.push(s[i]);
        i = i + 1;
    }
    proof {
        assert(out@ =~= s@);
    }
    out
}

impl Document {
    pub open spec fn wf(&self) -> bool {
        wf_doc(self@)
    }

    /// Position of the first block whose identifier equals `block_id`;
    /// later duplicates are ignored.
    pub fn locate(&self, block_id: &[u8]) -> (r: Option<usize>)
        ensures
            match r {
                Some(ix) => locate_spec(self@, block_id@) == Some(ix as int)
                    && ix < self.blocks@.len(),
                None => locate_spec(self@, block_id@) is None,
            },
    {
        let mut i: usize = 0;
        while i < self.blocks.len()
            invariant
                0 <= i <= self.blocks@.len(),
                locate_from(self@.blocks, block_id@, 0) == locate_from(
                    self@.blocks,
                    block_id@,
                    i as int,
                ),
            decreases self.blocks@.len() - i,
        {
            if eq_bytes(self.blocks[i].id.as_slice(), block_id) {
                return Some(i);
            }
            i = i + 1;
        }
        None
    }

    /// Replaces, wholesale, the property table of the first block whose
    /// identifier equals `block_id`; reports `Err` when no block matches,
    /// leaving the document unchanged.
    pub fn update_block_props(&mut self, block_id: &[u8], new_props: Vec<u8>) -> (r: Result<
        (),
        String,
    >)
        ensures
            match locate_spec(old(self)@, block_id@) {
                Some(ix) => r is Ok && final(self)@ == update_doc(old(self)@, ix, new_props@),
                None => r is Err && final(self)@ == old(self)@,
            },
            r matches Err(m) ==> m@ == "Block not found"@,
    {
        match self.locate(block_id) {
            Some(ix) => {
                let b = &mut self.blocks[ix];
                b.props = new_props;
                proof {
                    let ghost ixi = ix as int;
                    assert(self.blocks@ =~= old(self).blocks@.update(
                        ixi,
                        Block {
                            id: old(self).blocks@[ixi].id,
                            ty: old(self).blocks@[ixi].ty,
                            props: new_props,
                        },
                    ));
                    assert forall|k: int| 0 <= k < self@.blocks.len() implies self@.blocks[k]
                        == update_doc(old(self)@, ixi, new_props@).blocks[k] by {
                        assert(self@.blocks[k] == self.blocks@[k]@);
                        assert(old(self)@.blocks[k] == old(self).blocks@[k]@);
                    }
                    assert(self@.blocks =~= update_doc(old(self)@, ixi, new_props@).blocks);
                }
                Ok(())
            },
            None => {
                proof {
                    assert(self@.blocks =~= old(self)@.blocks);
                }
                Err("Block not found".to_owned())
            },
        }
    }
}

pub(crate) fn push_bytes(out: &mut Vec<u8>, s: &[u8])
    ensures
        final(out)@ == old(out)@ + s@,
{
    let mut i: usize = 0;
    while i < s.len()
        invariant
            0 <= i <= s@.len(),
            out@ =~= old(out)@ + s@.take(i as int),
        decreases s@.len() - i,
    {
        out.push(s[i]);
        i = i + 1;
    }
    proof {
        assert(out@ =~= old(out)@ + s@);
    }
}

fn push_escaped(out: &mut Vec<u8>, s: &[u8])
    ensures
        final(out)@ == old(out)@ + esc_str(s@),
{
    let mut i: usize = 0;
    proof {
        assert(esc_str(s@.take(0)) =~= Seq::<u8>::empty());
    }
    while i < s.len()
        invariant
            0 <= i <= s@.len(),
            out@ =~= old(out)@ + esc_str(s@.take(i as int)),
        decreases s@.len() - i,
    {
        let b = s[i];
        let ghost ii = i as int;
        proof {
            assert(s@.take(ii + 1) =~= s@.take(ii) + seq![b]);
            lemma_esc_str_concat(s@.take(ii), seq![b]);
            assert(seq![b].drop_first() =~= Seq::<u8>::empty());
            assert(esc_str(Seq::<u8>::empty()) == Seq::<u8>::empty());
            assert(seq![b][0] == b);
            assert(esc_str(seq![b]) =~= esc_one(b));
        }
        if b == QUOTE || b == BSLASH {
            out.push(BSLASH);
            out.push(b);
        } else if b == 8 {
            out.push(BSLASH);
            out.push(98);
        } else if b == 12 {
            out.push(BSLASH);
            out.push(102);
        } else if b == 10 {
            out.push(BSLASH);
            out.push(110);
        } else if b == 13 {
            out.push(BSLASH);
            out.push(114);
        } else if b == 9 {
            out.push(BSLASH);
            out.push(116);
        } else {
            out.push(b);
        }
        proof {
            assert(out@ =~= old(out)@ + esc_str(s@.take(ii + 1)));
        }
        i = i + 1;
    }
    proof {
        assert(s@.take(s@.len() as int) =~= s@);
    }
}

#[verifier::rlimit(50)]
fn push_block(out: &mut Vec<u8>, b: &Block)
    ensures
        final(out)@ == old(out)@ + ser_block(b@),
{
    out.push(LBRACE);
    out.push(QUOTE);
    out.push(105);
    out.push(100);
    out.push(QUOTE);
    out.push(58);
    out.push(QUOTE);
    proof {
        assert(out@ =~= old(out)@ + lit_id_open());
    }
    push_escaped(out, b.id.as_slice());
    out.push(QUOTE);
    out.push(COMMA);
    out.push(QUOTE);
    out.push(116);
    out.push(121);
    out.push(112);
    out.push(101);
    out.push(QUOTE);
    out.push(58);
    out.push(QUOTE);
    proof {
        assert(out@ =~= old(out)@ + lit_id_open() + esc_str(b.id@) + lit_type_mid());
    }
    push_escaped(out, b.ty.as_slice());
    out.push(QUOTE);
    out.push(COMMA);
    out.push(QUOTE);
    out.push(112);
    out.push(114);
    out.push(111);
    out.push(112);
    out.push(115);
    out.push(QUOTE);
    out.push(58);
    proof {
        assert(out@ =~= old(out)@ + lit_id_open() + esc_str(b.id@) + lit_type_mid() + esc_str(
            b.ty@,
        ) + lit_props_mid());
    }
    push_bytes(out, b.props.as_slice());
    out.push(RBRACE);
    proof {
        assert(out@ =~= old(out)@ + ser_block(b@));
    }
}

/// Encodes a document into its canonical byte form; the exact inverse of
/// `decode` on the fields the codec understands.
pub fn encode(d: &Document) -> (r: Vec<u8>)
    ensures
        r@ == ser_doc(d@),
{
    let mut out: Vec<u8> = Vec::new();
    out.push(LBRACE);
    out.push(QUOTE);
    out.push(98);
    out.push(108);
    out.push(111);
    out.push(99);
    out.push(107);
    out.push(115);
    out.push(QUOTE);
    out.push(58);
    out.push(LBRACK);
    proof {
        assert(out@ =~= lit_doc_open());
        assert(d@.blocks.take(0) =~= Seq::<BlockModel>::empty());
    }
    let mut k: usize = 0;
    while k < d.blocks.len()
        invariant
            0 <= k <= d.blocks@.len(),
            out@ == lit_doc_open() + ser_blocks(d@.blocks.take(k as int)),
        decreases d.blocks@.len() - k,
    {
        if k > 0 {
            out.push(COMMA);
        }
        push_block(&mut out, &d.blocks[k]);
        proof {
            let ghost ki = k as int;
            assert(d@.blocks[ki] == d.blocks@[ki]@);
            lemma_ser_blocks_take_succ(d@.blocks, ki);
            if ki == 0 {
                assert(out@ =~= lit_doc_open() + ser_blocks(d@.blocks.take(1)));
            } else {
                assert(out@ =~= lit_doc_open() + ser_blocks(d@.blocks.take(ki + 1)));
            }
        }
        k = k + 1;
    }
    out.push(RBRACK);
    out.push(RBRACE);
    proof {
        assert(d@.blocks.take(d.blocks@.len() as int) =~= d@.blocks);
        assert(out@ =~= ser_doc(d@));
    }
    out
}

} // verus!

verus! {

pub open spec fn kw_id() -> Seq<u8> {
    seq![105u8, 100u8]
}

pub open spec fn kw_type() -> Seq<u8> {
    seq![116u8, 121u8, 112u8, 101u8]
}

pub open spec fn kw_props() -> Seq<u8> {
    seq![112u8, 114u8, 111u8, 112u8, 115u8]
}

pub open spec fn kw_blocks() -> Seq<u8> {
    seq![98u8, 108u8, 111u8, 99u8, 107u8, 115u8]
}

pub open spec fn is_ws(b: u8) -> bool {
    b == 32 || b == 9 || b == 10 || b == 13
}

/// First position at or after `i` that holds no JSON whitespace.
pub open spec fn skip_ws(s: Seq<u8>, i: int) -> int
    decreases s.len() - i,
{
    if i < 0 || i >= s.len() {
        i
    } else if is_ws(s[i]) {
        skip_ws(s, i + 1)
    } else {
        i
    }
}

pub proof fn lemma_skip_ws_bounds(s: Seq<u8>, i: int)
    requires
        0 <= i <= s.len(),
    ensures
        i <= skip_ws(s, i) <= s.len(),
    decreases s.len() - i,
{
    if i < s.len() && is_ws(s[i]) {
        lemma_skip_ws_bounds(s, i + 1);
    }
}

/// The byte a short escape stands for, by its letter.
pub open spec fn esc_code_of(b: u8) -> Option<u8> {
    if b == QUOTE {
        Some(QUOTE)
    } else if b == BSLASH {
        Some(BSLASH)
    } else if b == SLASH {
        Some(SLASH)
    } else if b == 98 {
        Some(8u8)
    } else if b == 102 {
        Some(12u8)
    } else if b == 110 {
        Some(10u8)
    } else if b == 114 {
        Some(13u8)
    } else if b == 116 {
        Some(9u8)
    } else {
        None
    }
}

/// The body of a JSON string literal, read from just after its opening
/// quote: the unescaped bytes and the position after the closing quote.
/// Short escapes are understood; raw control bytes end the read.
pub open spec fn parse_str_body(s: Seq<u8>, i: int) -> Option<(Seq<u8>, int)>
    decreases s.len() - i,
{
    if i < 0 || i >= s.len() {
        None
    } else if s[i] == QUOTE {
        Some((Seq::empty(), i + 1))
    } else if s[i] == BSLASH {
        if i + 2 <= s.len() {
            match esc_code_of(s[i + 1]) {
                None => None,
                Some(c) => match parse_str_body(s, i + 2) {
                    None => None,
                    Some((rest, j)) => Some((seq![c] + rest, j)),
                },
            }
        } else {
            None
        }
    } else if s[i] < 32 {
        None
    } else {
        match parse_str_body(s, i + 1) {
            None => None,
            Some((rest, j)) => Some((seq![s[i]] + rest, j)),
        }
    }
}

pub proof fn lemma_parse_str_props(s: Seq<u8>, i: int, c: Seq<u8>, j: int)
    requires
        parse_str_body(s, i) == Some((c, j)),
    ensures
        i < j <= s.len(),
        encodable_str(c),
    decreases s.len() - i,
{
    if s[i] == QUOTE {
    } else if s[i] == BSLASH {
        let (rest, _j2) = parse_str_body(s, i + 2)->Some_0;
        lemma_parse_str_props(s, i + 2, rest, j);
        let c0 = esc_code_of(s[i + 1])->Some_0;
        assert forall|k: int| 0 <= k < c.len() implies c[k] >= 32 || c[k] == 8 || c[k] == 9
            || c[k] == 10 || c[k] == 12 || c[k] == 13 by {
            if k > 0 {
                assert(c[k] == rest[k - 1]);
            }
        }
    } else {
        let (rest, _j2) = parse_str_body(s, i + 1)->Some_0;
        lemma_parse_str_props(s, i + 1, rest, j);
        assert forall|k: int| 0 <= k < c.len() implies c[k] >= 32 || c[k] == 8 || c[k] == 9
            || c[k] == 10 || c[k] == 12 || c[k] == 13 by {
            if k > 0 {
                assert(c[k] == rest[k - 1]);
            }
        }
    }
}

pub open spec fn prim_byte(b: u8) -> bool {
    &&& !is_ws(b)
    &&& b != COMMA
    &&& b != COLON
    &&& b != QUOTE
    &&& b != BSLASH
    &&& b != LBRACE
    &&& b != RBRACE
    &&& b != LBRACK
    &&& b != RBRACK
}

/// End of a run of primitive-literal bytes (a number, `true`, `false`,
/// `null`).
pub open spec fn prim_end(s: Seq<u8>, i: int) -> int
    decreases s.len() - i,
{
    if i < 0 || i >= s.len() {
        i
    } else if prim_byte(s[i]) {
        prim_end(s, i + 1)
    } else {
        i
    }
}

pub proof fn lemma_prim_end_bounds(s: Seq<u8>, i: int)
    requires
        0 <= i <= s.len(),
    ensures
        i <= prim_end(s, i) <= s.len(),
    decreases s.len() - i,
{
    if i < s.len() && prim_byte(s[i]) {
        lemma_prim_end_bounds(s, i + 1);
    }
}

/// Position after one JSON value of any shape, read without interpretation:
/// a string, a bracketed object or array, or a primitive run.
pub open spec fn skip_value(s: Seq<u8>, i: int) -> Option<int> {
    if i < 0 || i >= s.len() {
        None
    } else if s[i] == QUOTE {
        match parse_str_body(s, i + 1) {
            None => None,
            Some((c, j)) => Some(j),
        }
    } else if s[i] == LBRACE || s[i] == LBRACK {
        scan_from(s, i, scan_init())
    } else if prim_byte(s[i]) {
        Some(prim_end(s, i + 1))
    } else {
        None
    }
}

pub open spec fn opt_bytes(o: Option<Vec<u8>>) -> Option<Seq<u8>> {
    match o {
        Some(v) => Some(v@),
        None => None,
    }
}

/// One member's value inside a block object: `id` and `type` take strings,
/// `props` takes one bracketed object kept as raw text, each at most once;
/// any other member is read past without interpretation.
pub open spec fn member_value(
    s: Seq<u8>,
    v: int,
    key: Seq<u8>,
    id: Option<Seq<u8>>,
    ty: Option<Seq<u8>>,
    props: Option<Seq<u8>>,
) -> Option<(Option<Seq<u8>>, Option<Seq<u8>>, Option<Seq<u8>>, int)> {
    if key == kw_id() {
        if id is Some || v < 0 || v >= s.len() || s[v] != QUOTE {
            None
        } else {
            match parse_str_body(s, v + 1) {
                None => None,
                Some((val, j)) => Some((Some(val), ty, props, j)),
            }
        }
    } else if key == kw_type() {
        if ty is Some || v < 0 || v >= s.len() || s[v] != QUOTE {
            None
        } else {
            match parse_str_body(s, v + 1) {
                None => None,
                Some((val, j)) => Some((id, Some(val), props, j)),
            }
        }
    } else if key == kw_props() {
        if props is Some || v < 0 || v >= s.len() || s[v] != LBRACE {
            None
        } else {
            match scan_from(s, v, scan_init()) {
                None => None,
                Some(pe) => Some((id, ty, Some(s.subrange(v, pe)), pe)),
            }
        }
    } else {
        match skip_value(s, v) {
            None => None,
            Some(j) => Some((id, ty, props, j)),
        }
    }
}

/// The members of a block object, read from just after its opening brace in
/// any order; the block is usable only when `id`, `type` and `props` each
/// appeared exactly once.
pub open spec fn parse_block_members(
    s: Seq<u8>,
    i: int,
    id: Option<Seq<u8>>,
    ty: Option<Seq<u8>>,
    props: Option<Seq<u8>>,
) -> Option<(BlockModel, int)>
    decreases s.len() - i,
{
    let k = skip_ws(s, i);
    if k < 0 || k >= s.len() || s[k] != QUOTE {
        None
    } else {
        match parse_str_body(s, k + 1) {
            None => None,
            Some((key, j)) => {
                let c = skip_ws(s, j);
                if c >= s.len() || s[c] != COLON {
                    None
                } else {
                    let v = skip_ws(s, c + 1);
                    match member_value(s, v, key, id, ty, props) {
                        None => None,
                        Some((id2, ty2, pr2, after)) => {
                            let e = skip_ws(s, after);
                            if e >= s.len() {
                                None
                            } else if s[e] == COMMA {
                                if e + 1 <= i || e + 1 > s.len() {
                                    None
                                } else {
                                    parse_block_members(s, e + 1, id2, ty2, pr2)
                                }
                            } else if s[e] == RBRACE {
                                match (id2, ty2, pr2) {
                                    (Some(idv), Some(tyv), Some(prv)) => Some(
                                        (BlockModel { id: idv, ty: tyv, props: prv }, e + 1),
                                    ),
                                    _ => None,
                                }
                            } else {
                                None
                            }
                        },
                    }
                }
            },
        }
    }
}

/// One block object, whitespace allowed before it.
pub open spec fn parse_block_obj(s: Seq<u8>, i: int) -> Option<(BlockModel, int)> {
    let a = skip_ws(s, i);
    if a < 0 || a >= s.len() || s[a] != LBRACE {
        None
    } else {
        parse_block_members(s, a + 1, None, None, None)
    }
}

/// The blocks of a non-empty array, comma separated, up to and past the
/// closing bracket.
pub open spec fn parse_block_list(s: Seq<u8>, i: int) -> Option<(Seq<BlockModel>, int)>
    decreases s.len() - i,
{
    match parse_block_obj(s, i) {
        None => None,
        Some((b, j)) => {
            if j <= i || j > s.len() {
                None
            } else {
                let e = skip_ws(s, j);
                if e >= s.len() {
                    None
                } else if s[e] == COMMA {
                    if e + 1 <= i {
                        None
                    } else {
                        match parse_block_list(s, e + 1) {
                            None => None,
                            Some((rest, end)) => Some((seq![b] + rest, end)),
                        }
                    }
                } else if s[e] == RBRACK {
                    Some((seq![b], e + 1))
                } else {
                    None
                }
            }
        },
    }
}

/// The `blocks` member takes the block array, exactly once; any other
/// top-level member is read past without interpretation.
pub open spec fn doc_member_value(
    s: Seq<u8>,
    v: int,
    key: Seq<u8>,
    blocks: Option<Seq<BlockModel>>,
) -> Option<(Option<Seq<BlockModel>>, int)> {
    if key == kw_blocks() {
        if blocks is Some || v < 0 || v >= s.len() || s[v] != LBRACK {
            None
        } else {
            let w = skip_ws(s, v + 1);
            if w < s.len() && s[w] == RBRACK {
                Some((Some(Seq::empty()), w + 1))
            } else {
                match parse_block_list(s, v + 1) {
                    None => None,
                    Some((bs, end)) => Some((Some(bs), end)),
                }
            }
        }
    } else {
        match skip_value(s, v) {
            None => None,
            Some(j) => Some((blocks, j)),
        }
    }
}

/// The members of the top-level object, in any order; the bytes are usable
/// only when a `blocks` array appeared exactly once.
pub open spec fn parse_doc_members(s: Seq<u8>, i: int, blocks: Option<Seq<BlockModel>>) -> Option<
    (Seq<BlockModel>, int),
>
    decreases s.len() - i,
{
    let k = skip_ws(s, i);
    if k < 0 || k >= s.len() || s[k] != QUOTE {
        None
    } else {
        match parse_str_body(s, k + 1) {
            None => None,
            Some((key, j)) => {
                let c = skip_ws(s, j);
                if c >= s.len() || s[c] != COLON {
                    None
                } else {
                    let v = skip_ws(s, c + 1);
                    match doc_member_value(s, v, key, blocks) {
                        None => None,
                        Some((blocks2, after)) => {
                            let e = skip_ws(s, after);
                            if e >= s.len() {
                                None
                            } else if s[e] == COMMA {
                                if e + 1 <= i || e + 1 > s.len() {
                                    None
                                } else {
                                    parse_doc_members(s, e + 1, blocks2)
                                }
                            } else if s[e] == RBRACE {
                                match blocks2 {
                                    Some(bs) => Some((bs, e + 1)),
                                    None => None,
                                }
                            } else {
                                None
                            }
                        },
                    }
                }
            },
        }
    }
}

/// The whole success domain of the decoder: one JSON object spanning the
/// input up to whitespace, holding a `blocks` array of blocks that each
/// carry `id`, `type` and `props`, members in any order, strings escaped or
/// plain, unknown members read past.
pub open spec fn decode_spec(s: Seq<u8>) -> Option<DocModel> {
    let a = skip_ws(s, 0);
    if a >= s.len() || s[a] != LBRACE {
        None
    } else {
        match parse_doc_members(s, a + 1, None) {
            None => None,
            Some((bs, end)) => {
                if skip_ws(s, end) == s.len() {
                    Some(DocModel { blocks: bs })
                } else {
                    None
                }
            },
        }
    }
}

} // verus!

verus! {

fn is_ws_b(b: u8) -> (r: bool)
    ensures
        r == is_ws(b),
{
    b == 32 || b == 9 || b == 10 || b == 13
}

fn is_prim_b(b: u8) -> (r: bool)
    ensures
        r == prim_byte(b),
{
    !(b == 32 || b == 9 || b == 10 || b == 13) && b != COMMA && b != COLON && b != QUOTE
        && b != BSLASH && b != LBRACE && b != RBRACE && b != LBRACK && b != RBRACK
}

fn ws_end(s: &[u8], start: usize) -> (r: usize)
    ensures
        r == skip_ws(s@, start as int),
        start <= r,
        start <= s@.len() ==> r <= s@.len(),
{
    let mut i: usize = start;
    loop
        invariant
            start <= i,
            start <= s@.len() ==> i <= s@.len(),
            skip_ws(s@, start as int) == skip_ws(s@, i as int),
        decreases s@.len() - i,
    {
        if i >= s.len() {
            return i;
        }
        if !is_ws_b(s[i]) {
            return i;
        }
        i = i + 1;
    }
}

fn prim_run(s: &[u8], start: usize) -> (r: usize)
    ensures
        r == prim_end(s@, start as int),
        start <= r,
        start <= s@.len() ==> r <= s@.len(),
{
    let mut i: usize = start;
    loop
        invariant
            start <= i,
            start <= s@.len() ==> i <= s@.len(),
            prim_end(s@, start as int) == prim_end(s@, i as int),
        decreases s@.len() - i,
    {
        if i >= s.len() {
            return i;
        }
        if !is_prim_b(s[i]) {
            return i;
        }
        i = i + 1;
    }
}

fn esc_code(b: u8) -> (r: Option<u8>)
    ensures
        r == esc_code_of(b),
{
    if b == QUOTE {
        Some(QUOTE)
    } else if b == BSLASH {
        Some(BSLASH)
    } else if b == SLASH {
        Some(SLASH)
    } else if b == 98 {
        Some(8)
    } else if b == 102 {
        Some(12)
    } else if b == 110 {
        Some(10)
    } else if b == 114 {
        Some(13)
    } else if b == 116 {
        Some(9)
    } else {
        None
    }
}

fn parse_string(s: &[u8], start: usize) -> (r: Option<(Vec<u8>, usize)>)
    ensures
        match r {
            Some((c, j)) => parse_str_body(s@, start as int) == Some((c@, j as int)) && start < j
                <= s@.len(),
            None => parse_str_body(s@, start as int) is None,
        },
{
    let n = s.len();
    let mut out: Vec<u8> = Vec::new();
    let mut cur: usize = start;
    proof {
        assert(out@ + Seq::<u8>::empty() =~= Seq::<u8>::empty());
    }
    loop
        invariant
            start <= cur,
            n == s@.len(),
            match parse_str_body(s@, cur as int) {
                Some((rest, j)) => parse_str_body(s@, start as int) == Some((out@ + rest, j)),
                None => parse_str_body(s@, start as int) is None,
            },
        decreases s@.len() - cur,
    {
        if cur >= s.len() {
            return None;
        }
        let b = s[cur];
        if b == QUOTE {
            proof {
                assert(parse_str_body(s@, cur as int) == Some((Seq::<u8>::empty(), cur + 1)));
                assert(out@ + Seq::<u8>::empty() =~= out@);
                lemma_parse_str_props(s@, start as int, out@, cur + 1);
            }
            return Some((out, cur + 1));
        }
        if b == BSLASH {
            if s.len() - cur < 2 {
                return None;
            }
            let ghost prev = out@;
            match esc_code(s[cur + 1]) {
                None => {
                    return None;
                },
                Some(c) => {
                    out.push(c);
                    proof {
                        match parse_str_body(s@, cur + 2) {
                            Some((rest2, j2)) => {
                                assert((prev + (seq![c] + rest2)) =~= (prev.push(c) + rest2));
                            },
                            None => {},
                        }
                    }
                    cur = cur + 2;
                },
            }
        } else if b < 32 {
            return None;
        } else {
            let ghost prev = out@;
            out.push(b);
            proof {
                match parse_str_body(s@, cur + 1) {
                    Some((rest2, j2)) => {
                        assert((prev + (seq![b] + rest2)) =~= (prev.push(b) + rest2));
                    },
                    None => {},
                }
            }
            cur = cur + 1;
        }
    }
}

fn skip_value_exec(s: &[u8], v: usize) -> (r: Option<usize>)
    ensures
        match r {
            Some(j) => skip_value(s@, v as int) == Some(j as int) && v < j <= s@.len(),
            None => skip_value(s@, v as int) is None,
        },
{
    if v >= s.len() {
        return None;
    }
    let b = s[v];
    if b == QUOTE {
        match parse_string(s, v + 1) {
            None => None,
            Some((_c, j)) => Some(j),
        }
    } else if b == LBRACE || b == LBRACK {
        scan_object(s, v)
    } else if is_prim_b(b) {
        proof {
            lemma_prim_end_bounds(s@, v + 1);
        }
        let e = prim_run(s, v + 1);
        Some(e)
    } else {
        None
    }
}

fn kw_id_v() -> (r: Vec<u8>)
    ensures
        r@ == kw_id(),
{
    let mut v: Vec<u8> = Vec::new();
    v.push(105);
    v.push(100);
    proof {
        assert(v@ =~= kw_id());
    }
    v
}

fn kw_type_v() -> (r: Vec<u8>)
    ensures
        r@ == kw_type(),
{
    let mut v: Vec<u8> = Vec::new();
    v.push(116);
    v.push(121);
    v.push(112);
    v.push(101);
    proof {
        assert(v@ =~= kw_type());
    }
    v
}

fn kw_props_v() -> (r: Vec<u8>)
    ensures
        r@ == kw_props(),
{
    let mut v: Vec<u8> = Vec::new();
    v.push(112);
    v.push(114);
    v.push(111);
    v.push(112);
    v.push(115);
    proof {
        assert(v@ =~= kw_props());
    }
    v
}

fn kw_blocks_v() -> (r: Vec<u8>)
    ensures
        r@ == kw_blocks(),
{
    let mut v: Vec<u8> = Vec::new();
    v.push(98);
    v.push(108);
    v.push(111);
    v.push(99);
    v.push(107);
    v.push(115);
    proof {
        assert(v@ =~= kw_blocks());
    }
    v
}

fn parse_block_exec(s: &[u8], i: usize) -> (r: Option<(Block, usize)>)
    ensures
        match r {
            Some((b, j)) => parse_block_obj(s@, i as int) == Some((b@, j as int)) && i < j
                <= s@.len(),
            None => parse_block_obj(s@, i as int) is None,
        },
{
    let a = ws_end(s, i);
    if a >= s.len() {
        return None;
    }
    if s[a] != LBRACE {
        return None;
    }
    let n = s.len();
    let mut id: Option<Vec<u8>> = None;
    let mut ty: Option<Vec<u8>> = None;
    let mut props: Option<Vec<u8>> = None;
    let mut cur: usize = a + 1;
    loop
        invariant
            i < cur <= s@.len() + 1,
            n == s@.len(),
            a == skip_ws(s@, i as int),
            a < s@.len() && s@[a as int] == LBRACE,
            parse_block_members(s@, a + 1, None, None, None) == parse_block_members(
                s@,
                cur as int,
                opt_bytes(id),
                opt_bytes(ty),
                opt_bytes(props),
            ),
        decreases s@.len() + 1 - cur,
    {
        let k = ws_end(s, cur);
        if k >= s.len() {
            return None;
        }
        if s[k] != QUOTE {
            return None;
        }
        let (key, j) = match parse_string(s, k + 1) {
            None => {
                return None;
            },
            Some(kj) => kj,
        };
        let c = ws_end(s, j);
        if c >= s.len() {
            return None;
        }
        if s[c] != COLON {
            return None;
        }
        let v = ws_end(s, c + 1);
        let kid = kw_id_v();
        let kty = kw_type_v();
        let kpr = kw_props_v();
        let after: usize;
        if eq_bytes(key.as_slice(), kid.as_slice()) {
            if id.is_some() {
                return None;
            }
            if v >= s.len() {
                return None;
            }
            if s[v] != QUOTE {
                return None;
            }
            match parse_string(s, v + 1) {
                None => {
                    return None;
                },
                Some((val, j2)) => {
                    id = Some(val);
                    after = j2;
                },
            }
        } else if eq_bytes(key.as_slice(), kty.as_slice()) {
            if ty.is_some() {
                return None;
            }
            if v >= s.len() {
                return None;
            }
            if s[v] != QUOTE {
                return None;
            }
            match parse_string(s, v + 1) {
                None => {
                    return None;
                },
                Some((val, j2)) => {
                    ty = Some(val);
                    after = j2;
                },
            }
        } else if eq_bytes(key.as_slice(), kpr.as_slice()) {
            if props.is_some() {
                return None;
            }
            if v >= s.len() {
                return None;
            }
            if s[v] != LBRACE {
                return None;
            }
            match scan_object(s, v) {
                None => {
                    return None;
                },
                Some(pe) => {
                    props = Some(copy_bytes(&s[v..pe]));
                    after = pe;
                },
            }
        } else {
            match skip_value_exec(s, v) {
                None => {
                    return None;
                },
                Some(j2) => {
                    after = j2;
                },
            }
        }
        let e = ws_end(s, after);
        if e >= s.len() {
            return None;
        }
        if s[e] == COMMA {
            cur = e + 1;
        } else if s[e] == RBRACE {
            match (id, ty, props) {
                (Some(idv), Some(tyv), Some(prv)) => {
                    return Some((Block { id: idv, ty: tyv, props: prv }, e + 1));
                },
                _ => {
                    return None;
                },
            }
        } else {
            return None;
        }
    }
}

fn parse_list_exec(s: &[u8], start: usize) -> (r: Option<(Vec<Block>, usize)>)
    ensures
        match r {
            Some((bs, end)) => parse_block_list(s@, start as int) == Some(
                (bs@.map_values(|b: Block| b@), end as int),
            ) && start < end <= s@.len(),
            None => parse_block_list(s@, start as int) is None,
        },
{
    let n = s.len();
    let mut acc: Vec<Block> = Vec::new();
    let mut cur: usize = start;
    proof {
        assert(acc@.map_values(|b: Block| b@) =~= Seq::<BlockModel>::empty());
    }
    loop
        invariant
            start <= cur,
            n == s@.len(),
            match parse_block_list(s@, cur as int) {
                Some((rest, end)) => parse_block_list(s@, start as int) == Some(
                    (acc@.map_values(|b: Block| b@) + rest, end),
                ),
                None => parse_block_list(s@, start as int) is None,
            },
        decreases s@.len() + 1 - cur,
    {
        match parse_block_exec(s, cur) {
            None => {
                return None;
            },
            Some((b, j)) => {
                let ghost prev_models = acc@.map_values(|bb: Block| bb@);
                let e = ws_end(s, j);
                if e >= s.len() {
                    return None;
                }
                if s[e] == COMMA {
                    acc.push(b);
                    proof {
                        assert(acc@.map_values(|bb: Block| bb@) =~= prev_models + seq![b@]);
                    }
                    cur = e + 1;
                    proof {
                        match parse_block_list(s@, cur as int) {
                            Some((rest2, e2)) => {
                                assert((prev_models + seq![b@]) + rest2 =~= prev_models + (
                                seq![b@] + rest2));
                            },
                            None => {},
                        }
                    }
                } else if s[e] == RBRACK {
                    acc.push(b);
                    proof {
                        assert(acc@.map_values(|bb: Block| bb@) =~= prev_models + seq![b@]);
                        assert(parse_block_list(s@, cur as int) == Some((seq![b@], e + 1)));
                    }
                    return Some((acc, e + 1));
                } else {
                    return None;
                }
            },
        }
    }
}

pub open spec fn opt_blocks(o: Option<Vec<Block>>) -> Option<Seq<BlockModel>> {
    match o {
        Some(v) => Some(v@.map_values(|b: Block| b@)),
        None => None,
    }
}

fn parse_doc_members_exec(s: &[u8], start: usize) -> (r: Option<(Vec<Block>, usize)>)
    ensures
        match r {
            Some((bs, end)) => parse_doc_members(s@, start as int, None) == Some(
                (bs@.map_values(|b: Block| b@), end as int),
            ) && end <= s@.len(),
            None => parse_doc_members(s@, start as int, None) is None,
        },
{
    let n = s.len();
    let mut blocks: Option<Vec<Block>> = None;
    let mut cur: usize = start;
    loop
        invariant
            start <= cur,
            n == s@.len(),
            parse_doc_members(s@, start as int, None) == parse_doc_members(
                s@,
                cur as int,
                opt_blocks(blocks),
            ),
        decreases s@.len() + 1 - cur,
    {
        let ghost cur0 = cur as int;
        let ghost bv0 = opt_blocks(blocks);
        let k = ws_end(s, cur);
        if k >= s.len() {
            return None;
        }
        if s[k] != QUOTE {
            return None;
        }
        let (key, j) = match parse_string(s, k + 1) {
            None => {
                return None;
            },
            Some(kj) => kj,
        };
        let c = ws_end(s, j);
        if c >= s.len() {
            return None;
        }
        if s[c] != COLON {
            return None;
        }
        let v = ws_end(s, c + 1);
        let kbl = kw_blocks_v();
        let after: usize;
        if eq_bytes(key.as_slice(), kbl.as_slice()) {
            if blocks.is_some() {
                return None;
            }
            if v >= s.len() {
                return None;
            }
            if s[v] != LBRACK {
                return None;
            }
            let w = ws_end(s, v + 1);
            if w < s.len() && s[w] == RBRACK {
                blocks = Some(Vec::new());
                after = w + 1;
                proof {
                    assert(blocks->Some_0@.map_values(|b: Block| b@)
                        =~= Seq::<BlockModel>::empty());
                }
            } else {
                match parse_list_exec(s, v + 1) {
                    None => {
                        return None;
                    },
                    Some((bs, end)) => {
                        blocks = Some(bs);
                        after = end;
                    },
                }
            }
        } else {
            match skip_value_exec(s, v) {
                None => {
                    return None;
                },
                Some(j2) => {
                    after = j2;
                },
            }
        }
        let e = ws_end(s, after);
        if e >= s.len() {
            return None;
        }
        proof {
            assert(doc_member_value(s@, v as int, key@, bv0) == Some(
                (opt_blocks(blocks), after as int),
            ));
        }
        if s[e] == COMMA {
            cur = e + 1;
            proof {
                assert(parse_doc_members(s@, cur0, bv0) == parse_doc_members(
                    s@,
                    cur as int,
                    opt_blocks(blocks),
                ));
            }
        } else if s[e] == RBRACE {
            match blocks {
                Some(bs) => {
                    return Some((bs, e + 1));
                },
                None => {
                    return None;
                },
            }
        } else {
            return None;
        }
    }
}

} // verus!

verus! {

proof fn lemma_members_wf(
    s: Seq<u8>,
    i: int,
    id: Option<Seq<u8>>,
    ty: Option<Seq<u8>>,
    props: Option<Seq<u8>>,
    b: BlockModel,
    e: int,
)
    requires
        parse_block_members(s, i, id, ty, props) == Some((b, e)),
        id is Some ==> encodable_str(id->Some_0),
        ty is Some ==> encodable_str(ty->Some_0),
        props is Some ==> wf_props_text(props->Some_0),
    ensures
        wf_block(b),
    decreases s.len() - i,
{
    let k = skip_ws(s, i);
    let (key, j) = parse_str_body(s, k + 1)->Some_0;
    lemma_parse_str_props(s, k + 1, key, j);
    let c = skip_ws(s, j);
    let v = skip_ws(s, c + 1);
    let (id2, ty2, pr2, after) = member_value(s, v, key, id, ty, props)->Some_0;
    assert(id2 is Some ==> encodable_str(id2->Some_0)) by {
        if key == kw_id() && id is None {
            let (val, j2) = parse_str_body(s, v + 1)->Some_0;
            lemma_parse_str_props(s, v + 1, val, j2);
        }
    }
    assert(ty2 is Some ==> encodable_str(ty2->Some_0)) by {
        if key != kw_id() && key == kw_type() && ty is None {
            let (val, j2) = parse_str_body(s, v + 1)->Some_0;
            lemma_parse_str_props(s, v + 1, val, j2);
        }
    }
    assert(pr2 is Some ==> wf_props_text(pr2->Some_0)) by {
        if key != kw_id() && key != kw_type() && key == kw_props() && props is None {
            let pe = scan_from(s, v, scan_init())->Some_0;
            let pt = s.subrange(v, pe);
            lemma_scan_bounds(s, v, scan_init(), pe);
            let st2 = crate::json_scan::scan_step(scan_init(), s[v])->Some_0;
            assert(!crate::json_scan::scan_done(st2));
            lemma_scan_bounds(s, v + 1, st2, pe);
            assert(pt.len() >= 2);
            assert(pt[0] == LBRACE);
            assert(pt.subrange(0, pe - v) =~= s.subrange(v, pe));
            lemma_scan_window(s, v, pt, 0, scan_init(), pe);
        }
    }
    let e2 = skip_ws(s, after);
    if s[e2] == COMMA {
        lemma_members_wf(s, e2 + 1, id2, ty2, pr2, b, e);
    }
}

proof fn lemma_list_wf(s: Seq<u8>, i: int, bs: Seq<BlockModel>, end: int)
    requires
        parse_block_list(s, i) == Some((bs, end)),
    ensures
        forall|k: int| 0 <= k < bs.len() ==> wf_block(#[trigger] bs[k]),
    decreases s.len() - i,
{
    let (b, j) = parse_block_obj(s, i)->Some_0;
    let a = skip_ws(s, i);
    lemma_members_wf(s, a + 1, None, None, None, b, j);
    let e = skip_ws(s, j);
    if s[e] == COMMA {
        let (rest, e2) = parse_block_list(s, e + 1)->Some_0;
        lemma_list_wf(s, e + 1, rest, e2);
        assert(bs == seq![b] + rest);
        assert forall|k: int| 0 <= k < bs.len() implies wf_block(#[trigger] bs[k]) by {
            if k == 0 {
                assert(bs[0] == b);
            } else {
                assert(bs[k] == rest[k - 1]);
            }
        }
    } else {
        assert(bs == seq![b]);
        assert(bs[0] == b);
    }
}

proof fn lemma_doc_members_wf(
    s: Seq<u8>,
    i: int,
    blocks: Option<Seq<BlockModel>>,
    bs: Seq<BlockModel>,
    end: int,
)
    requires
        parse_doc_members(s, i, blocks) == Some((bs, end)),
        blocks is Some ==> forall|k: int|
            0 <= k < blocks->Some_0.len() ==> wf_block(#[trigger] blocks->Some_0[k]),
    ensures
        forall|k: int| 0 <= k < bs.len() ==> wf_block(#[trigger] bs[k]),
    decreases s.len() - i,
{
    let k0 = skip_ws(s, i);
    let (key, j) = parse_str_body(s, k0 + 1)->Some_0;
    let c = skip_ws(s, j);
    let v = skip_ws(s, c + 1);
    let (blocks2, after) = doc_member_value(s, v, key, blocks)->Some_0;
    assert(blocks2 is Some ==> forall|k: int|
        0 <= k < blocks2->Some_0.len() ==> wf_block(#[trigger] blocks2->Some_0[k])) by {
        if key == kw_blocks() && blocks is None {
            let w = skip_ws(s, v + 1);
            if w < s.len() && s[w] == RBRACK {
            } else {
                let (lbs, lend) = parse_block_list(s, v + 1)->Some_0;
                lemma_list_wf(s, v + 1, lbs, lend);
            }
        }
    }
    let e = skip_ws(s, after);
    if s[e] == COMMA {
        lemma_doc_members_wf(s, e + 1, blocks2, bs, end);
    }
}

/// Well-formedness survives decoding: whatever the reader accepts is a
/// well-formed document.
pub proof fn lemma_decode_wf(s: Seq<u8>, dm: DocModel)
    requires
        decode_spec(s) == Some(dm),
    ensures
        wf_doc(dm),
{
    let a = skip_ws(s, 0);
    let (bs, end) = parse_doc_members(s, a + 1, None)->Some_0;
    lemma_doc_members_wf(s, a + 1, None, bs, end);
}

fn decode_inner(bytes: &[u8]) -> (r: Result<Document, ReadJsonError>)
    ensures
        match r {
            Ok(d) => decode_spec(bytes@) == Some(d@) && d.wf(),
            Err(e) => decode_spec(bytes@) is None && e == ReadJsonError::JsonParseError,
        },
{
    let a = ws_end(bytes, 0);
    if a >= bytes.len() {
        return Err(ReadJsonError::JsonParseError);
    }
    if bytes[a] != LBRACE {
        return Err(ReadJsonError::JsonParseError);
    }
    match parse_doc_members_exec(bytes, a + 1) {
        None => Err(ReadJsonError::JsonParseError),
        Some((bs, end)) => {
            let u = ws_end(bytes, end);
            if u == bytes.len() {
                let d = Document { blocks: bs };
                proof {
                    lemma_decode_wf(bytes@, d@);
                }
                Ok(d)
            } else {
                Err(ReadJsonError::JsonParseError)
            }
        },
    }
}

/// Decodes a document file: it succeeds on exactly the byte sequences that
/// hold one JSON object with a usable `blocks` array — whitespace between
/// tokens, any member order, escaped or plain strings, unknown members read
/// past — returns the document those bytes hold, and fails with
/// `JsonParseError` on every other input. Every canonical encoding decodes
/// back to the document encoded.
pub fn decode(bytes: &[u8]) -> (r: Result<Document, ReadJsonError>)
    ensures
        match r {
            Ok(d) => d.wf() && decode_spec(bytes@) == Some(d@),
            Err(e) => e == ReadJsonError::JsonParseError && decode_spec(bytes@) is None && (forall|
                dm: DocModel,
            |
                wf_doc(dm) ==> bytes@ != ser_doc(dm)),
        },
{
    let r = decode_inner(bytes);
    proof {
        if !(r is Ok) {
            assert forall|dm: DocModel| wf_doc(dm) implies bytes@ != ser_doc(dm) by {
                lemma_decode_rejects_no_encoding(bytes@, dm);
            }
        }
    }
    r
}

} // verus!

verus! {

proof fn lemma_esc_str_raw(c: Seq<u8>)
    requires
        forall|k: int| 0 <= k < c.len() ==> c[k] >= 32 && c[k] != QUOTE && c[k] != BSLASH,
    ensures
        esc_str(c) == c,
    decreases c.len(),
{
    if c.len() > 0 {
        assert(esc_one(c[0]) == seq![c[0]]);
        assert forall|k: int| 0 <= k < c.drop_first().len() implies c.drop_first()[k] >= 32
            && c.drop_first()[k] != QUOTE && c.drop_first()[k] != BSLASH by {
            assert(c.drop_first()[k] == c[k + 1]);
        }
        lemma_esc_str_raw(c.drop_first());
        assert(esc_str(c) =~= c);
    }
}

proof fn lemma_kw_raw()
    ensures
        esc_str(kw_id()) == kw_id(),
        esc_str(kw_type()) == kw_type(),
        esc_str(kw_props()) == kw_props(),
        esc_str(kw_blocks()) == kw_blocks(),
{
    lemma_esc_str_raw(kw_id());
    lemma_esc_str_raw(kw_type());
    lemma_esc_str_raw(kw_props());
    lemma_esc_str_raw(kw_blocks());
}

proof fn lemma_parse_str_complete(s: Seq<u8>, i: int, c: Seq<u8>)
    requires
        encodable_str(c),
        0 <= i,
        i + esc_str(c).len() + 1 <= s.len(),
        s.subrange(i, i + esc_str(c).len()) == esc_str(c),
        s[i + esc_str(c).len()] == QUOTE,
    ensures
        parse_str_body(s, i) == Some((c, i + esc_str(c).len() + 1)),
    decreases c.len(),
{
    let ee = esc_str(c);
    assert forall|m: int| 0 <= m < ee.len() implies s[i + m] == ee[m] by {
        assert(s.subrange(i, i + ee.len())[m] == s[i + m]);
    }
    if c.len() == 0 {
        assert(s[i] == QUOTE);
    } else {
        let b0 = c[0];
        assert(s[i + 0] == ee[0]);
        let e0 = esc_one(b0);
        let rest = c.drop_first();
        let er = esc_str(rest);
        assert(ee == e0 + er);
        assert(encodable_str(rest)) by {
            assert forall|k: int| 0 <= k < rest.len() implies rest[k] >= 32 || rest[k] == 8
                || rest[k] == 9 || rest[k] == 10 || rest[k] == 12 || rest[k] == 13 by {
                assert(rest[k] == c[k + 1]);
            }
        }
        if b0 == QUOTE || b0 == BSLASH || b0 == 8 || b0 == 12 || b0 == 10 || b0 == 13 || b0
            == 9 {
            assert(e0.len() == 2);
            assert(ee[0] == e0[0]);
            assert(s[i] == ee[0]);
            assert(ee[0] == BSLASH);
            assert(s[i + 1] == ee[1]);
            assert(esc_code_of(ee[1]) == Some(b0));
            assert(s.subrange(i + 2, i + 2 + er.len()) =~= er) by {
                assert forall|m: int| 0 <= m < er.len() implies s.subrange(
                    i + 2,
                    i + 2 + er.len(),
                )[m] == er[m] by {
                    assert(s[i + 2 + m] == ee[2 + m]);
                }
            }
            assert(s[i + 2 + er.len()] == QUOTE);
            lemma_parse_str_complete(s, i + 2, rest);
            assert(seq![b0] + rest =~= c);
        } else {
            assert(b0 >= 32 && b0 != QUOTE && b0 != BSLASH);
            assert(e0 == seq![b0]);
            assert(ee[0] == e0[0]);
            assert(s[i] == b0);
            assert(s.subrange(i + 1, i + 1 + er.len()) =~= er) by {
                assert forall|m: int| 0 <= m < er.len() implies s.subrange(
                    i + 1,
                    i + 1 + er.len(),
                )[m] == er[m] by {
                    assert(s[i + 1 + m] == ee[1 + m]);
                }
            }
            assert(s[i + 1 + er.len()] == QUOTE);
            lemma_parse_str_complete(s, i + 1, rest);
            assert(seq![b0] + rest =~= c);
        }
    }
}

proof fn lemma_parse_block_complete(s: Seq<u8>, i: int, b: BlockModel)
    requires
        wf_block(b),
        0 <= i,
        i + ser_block(b).len() <= s.len(),
        s.subrange(i, i + ser_block(b).len()) == ser_block(b),
    ensures
        parse_block_obj(s, i) == Some((b, i + ser_block(b).len())),
{
    lemma_kw_raw();
    let ll = ser_block(b);
    let ei = esc_str(b.id);
    let et = esc_str(b.ty);
    let idl = ei.len() as int;
    let tyl = et.len() as int;
    let prl = b.props.len() as int;
    let q1 = i + 7 + idl;
    let q2 = q1 + 10 + tyl;
    let opr = q2 + 10;
    let pe = opr + prl;
    assert(ll.len() == 7 + idl + 10 + tyl + 10 + prl + 1);
    assert forall|m: int| 0 <= m < ll.len() implies s[i + m] == ll[m] by {
        assert(s.subrange(i, i + ll.len())[m] == s[i + m]);
    }
    // the fixed frame bytes
    assert(s[i + 0] == ll[0]);
    assert(ll[0] == lit_id_open()[0]);
    assert(s[i + 1] == ll[1]);
    assert(ll[1] == lit_id_open()[1]);
    assert(s[i + 2] == ll[2]);
    assert(ll[2] == lit_id_open()[2]);
    assert(s[i + 3] == ll[3]);
    assert(ll[3] == lit_id_open()[3]);
    assert(s[i + 4] == ll[4]);
    assert(ll[4] == lit_id_open()[4]);
    assert(s[i + 5] == ll[5]);
    assert(ll[5] == lit_id_open()[5]);
    assert(s[i + 6] == ll[6]);
    assert(ll[6] == lit_id_open()[6]);
    assert(s[i + (7 + idl + 0)] == ll[7 + idl + 0]);
    assert(ll[7 + idl + 0] == lit_type_mid()[0]);
    assert(s[q1 + 0] == lit_type_mid()[0]);
    assert(s[i + (7 + idl + 1)] == ll[7 + idl + 1]);
    assert(ll[7 + idl + 1] == lit_type_mid()[1]);
    assert(s[q1 + 1] == lit_type_mid()[1]);
    assert(s[i + (7 + idl + 2)] == ll[7 + idl + 2]);
    assert(ll[7 + idl + 2] == lit_type_mid()[2]);
    assert(s[q1 + 2] == lit_type_mid()[2]);
    assert(s[i + (7 + idl + 3)] == ll[7 + idl + 3]);
    assert(ll[7 + idl + 3] == lit_type_mid()[3]);
    assert(s[q1 + 3] == lit_type_mid()[3]);
    assert(s[i + (7 + idl + 4)] == ll[7 + idl + 4]);
    assert(ll[7 + idl + 4] == lit_type_mid()[4]);
    assert(s[q1 + 4] == lit_type_mid()[4]);
    assert(s[i + (7 + idl + 5)] == ll[7 + idl + 5]);
    assert(ll[7 + idl + 5] == lit_type_mid()[5]);
    assert(s[q1 + 5] == lit_type_mid()[5]);
    assert(s[i + (7 + idl + 6)] == ll[7 + idl + 6]);
    assert(ll[7 + idl + 6] == lit_type_mid()[6]);
    assert(s[q1 + 6] == lit_type_mid()[6]);
    assert(s[i + (7 + idl + 7)] == ll[7 + idl + 7]);
    assert(ll[7 + idl + 7] == lit_type_mid()[7]);
    assert(s[q1 + 7] == lit_type_mid()[7]);
    assert(s[i + (7 + idl + 8)] == ll[7 + idl + 8]);
    assert(ll[7 + idl + 8] == lit_type_mid()[8]);
    assert(s[q1 + 8] == lit_type_mid()[8]);
    assert(s[i + (7 + idl + 9)] == ll[7 + idl + 9]);
    assert(ll[7 + idl + 9] == lit_type_mid()[9]);
    assert(s[q1 + 9] == lit_type_mid()[9]);
    assert(s[i + (7 + idl + 10 + tyl + 0)] == ll[7 + idl + 10 + tyl + 0]);
    assert(ll[7 + idl + 10 + tyl + 0] == lit_props_mid()[0]);
    assert(s[q2 + 0] == lit_props_mid()[0]);
    assert(s[i + (7 + idl + 10 + tyl + 1)] == ll[7 + idl + 10 + tyl + 1]);
    assert(ll[7 + idl + 10 + tyl + 1] == lit_props_mid()[1]);
    assert(s[q2 + 1] == lit_props_mid()[1]);
    assert(s[i + (7 + idl + 10 + tyl + 2)] == ll[7 + idl + 10 + tyl + 2]);
    assert(ll[7 + idl + 10 + tyl + 2] == lit_props_mid()[2]);
    assert(s[q2 + 2] == lit_props_mid()[2]);
    assert(s[i + (7 + idl + 10 + tyl + 3)] == ll[7 + idl + 10 + tyl + 3]);
    assert(ll[7 + idl + 10 + tyl + 3] == lit_props_mid()[3]);
    assert(s[q2 + 3] == lit_props_mid()[3]);
    assert(s[i + (7 + idl + 10 + tyl + 4)] == ll[7 + idl + 10 + tyl + 4]);
    assert(ll[7 + idl + 10 + tyl + 4] == lit_props_mid()[4]);
    assert(s[q2 + 4] == lit_props_mid()[4]);
    assert(s[i + (7 + idl + 10 + tyl + 5)] == ll[7 + idl + 10 + tyl + 5]);
    assert(ll[7 + idl + 10 + tyl + 5] == lit_props_mid()[5]);
    assert(s[q2 + 5] == lit_props_mid()[5]);
    assert(s[i + (7 + idl + 10 + tyl + 6)] == ll[7 + idl + 10 + tyl + 6]);
    assert(ll[7 + idl + 10 + tyl + 6] == lit_props_mid()[6]);
    assert(s[q2 + 6] == lit_props_mid()[6]);
    assert(s[i + (7 + idl + 10 + tyl + 7)] == ll[7 + idl + 10 + tyl + 7]);
    assert(ll[7 + idl + 10 + tyl + 7] == lit_props_mid()[7]);
    assert(s[q2 + 7] == lit_props_mid()[7]);
    assert(s[i + (7 + idl + 10 + tyl + 8)] == ll[7 + idl + 10 + tyl + 8]);
    assert(ll[7 + idl + 10 + tyl + 8] == lit_props_mid()[8]);
    assert(s[q2 + 8] == lit_props_mid()[8]);
    assert(s[i + (7 + idl + 10 + tyl + 9)] == ll[7 + idl + 10 + tyl + 9]);
    assert(ll[7 + idl + 10 + tyl + 9] == lit_props_mid()[9]);
    assert(s[q2 + 9] == lit_props_mid()[9]);
    assert(s[i + (7 + idl + 10 + tyl + 10)] == ll[7 + idl + 10 + tyl + 10]);
    assert(ll[7 + idl + 10 + tyl + 10] == b.props[0]);
    assert(s[opr] == b.props[0]);
    assert(s[opr] == LBRACE);
    assert(s[i + (ll.len() - 1)] == ll[ll.len() - 1]);
    assert(ll[ll.len() - 1] == RBRACE);
    assert(s[pe] == RBRACE);
    // outer whitespace skip stops at the brace
    assert(skip_ws(s, i) == i);
    // member one: "id"
    assert(skip_ws(s, i + 1) == i + 1);
    assert(s.subrange(i + 2, i + 4) =~= kw_id()) by {
        assert(s.subrange(i + 2, i + 4)[0] == s[i + 2]);
        assert(s.subrange(i + 2, i + 4)[1] == s[i + 3]);
    }
    lemma_parse_str_complete(s, i + 2, kw_id());
    assert(parse_str_body(s, i + 2) == Some((kw_id(), i + 5)));
    assert(skip_ws(s, i + 5) == i + 5);
    assert(skip_ws(s, i + 6) == i + 6);
    assert(s.subrange(i + 7, i + 7 + idl) =~= ei) by {
        assert forall|m: int| 0 <= m < idl implies s.subrange(i + 7, i + 7 + idl)[m] == ei[m] by {
            assert(s[i + 7 + m] == ll[7 + m]);
        }
    }
    assert(s[i + 7 + idl] == QUOTE);
    lemma_parse_str_complete(s, i + 7, b.id);
    assert(parse_str_body(s, i + 7) == Some((b.id, q1 + 1)));
    assert(member_value(s, i + 6, kw_id(), None, None, None) == Some(
        (Some(b.id), None::<Seq<u8>>, None::<Seq<u8>>, q1 + 1),
    ));
    assert(skip_ws(s, q1 + 1) == q1 + 1);
    assert(s[q1 + 1] == COMMA);
    // member two: "type"
    assert(skip_ws(s, q1 + 2) == q1 + 2);
    assert(s[q1 + 2] == QUOTE);
    assert(s.subrange(q1 + 3, q1 + 7) =~= kw_type()) by {
        assert forall|m: int| 0 <= m < 4 implies s.subrange(q1 + 3, q1 + 7)[m] == kw_type()[m] by {
            assert(s[q1 + 3 + m] == ll[7 + idl + 3 + m]);
        }
    }
    assert(s[q1 + 7] == QUOTE);
    lemma_parse_str_complete(s, q1 + 3, kw_type());
    assert(parse_str_body(s, q1 + 3) == Some((kw_type(), q1 + 8)));
    assert(skip_ws(s, q1 + 8) == q1 + 8);
    assert(s[q1 + 8] == COLON);
    assert(skip_ws(s, q1 + 9) == q1 + 9);
    assert(s[q1 + 9] == QUOTE);
    assert(kw_type() != kw_id()) by {
        assert(kw_type().len() == 4);
        assert(kw_id().len() == 2);
    }
    assert(s.subrange(q1 + 10, q1 + 10 + tyl) =~= et) by {
        assert forall|m: int| 0 <= m < tyl implies s.subrange(q1 + 10, q1 + 10 + tyl)[m]
            == et[m] by {
            assert(s[q1 + 10 + m] == ll[7 + idl + 10 + m]);
        }
    }
    assert(s[q1 + 10 + tyl] == QUOTE);
    lemma_parse_str_complete(s, q1 + 10, b.ty);
    assert(parse_str_body(s, q1 + 10) == Some((b.ty, q2 + 1)));
    assert(member_value(s, q1 + 9, kw_type(), Some(b.id), None, None) == Some(
        (Some(b.id), Some(b.ty), None::<Seq<u8>>, q2 + 1),
    ));
    assert(skip_ws(s, q2 + 1) == q2 + 1);
    assert(s[q2 + 1] == COMMA);
    // member three: "props"
    assert(skip_ws(s, q2 + 2) == q2 + 2);
    assert(s[q2 + 2] == QUOTE);
    assert(s.subrange(q2 + 3, q2 + 8) =~= kw_props()) by {
        assert forall|m: int| 0 <= m < 5 implies s.subrange(q2 + 3, q2 + 8)[m]
            == kw_props()[m] by {
            assert(s[q2 + 3 + m] == ll[7 + idl + 10 + tyl + 3 + m]);
        }
    }
    assert(s[q2 + 8] == QUOTE);
    lemma_parse_str_complete(s, q2 + 3, kw_props());
    assert(parse_str_body(s, q2 + 3) == Some((kw_props(), q2 + 9)));
    assert(skip_ws(s, q2 + 9) == q2 + 9);
    assert(s[q2 + 9] == COLON);
    assert(skip_ws(s, q2 + 10) == q2 + 10);
    assert(kw_props() != kw_id()) by {
        assert(kw_props().len() == 5);
        assert(kw_id().len() == 2);
    }
    assert(kw_props() != kw_type()) by {
        assert(kw_props().len() == 5);
        assert(kw_type().len() == 4);
    }
    assert(s.subrange(opr, pe) =~= b.props) by {
        assert forall|m: int| 0 <= m < prl implies s.subrange(opr, pe)[m] == b.props[m] by {
            assert(s[opr + m] == ll[7 + idl + 10 + tyl + 10 + m]);
        }
    }
    assert(scan_from(s, opr, scan_init()) == Some(pe)) by {
        assert(b.props.subrange(0, prl) =~= b.props);
        lemma_scan_window(b.props, 0, s, opr, scan_init(), prl);
    }
    assert(member_value(s, q2 + 10, kw_props(), Some(b.id), Some(b.ty), None) == Some(
        (Some(b.id), Some(b.ty), Some(b.props), pe),
    ));
    assert(skip_ws(s, pe) == pe);
    // assemble the three member steps
    assert(parse_block_members(s, q2 + 2, Some(b.id), Some(b.ty), None) == Some((b, pe + 1)));
    assert(parse_block_members(s, q1 + 2, Some(b.id), None, None) == Some((b, pe + 1)));
    assert(parse_block_members(s, i + 1, None, None, None) == Some((b, pe + 1)));
    assert(pe + 1 == i + ll.len());
}

proof fn lemma_parse_list_complete(s: Seq<u8>, i: int, bs: Seq<BlockModel>)
    requires
        bs.len() > 0,
        forall|k: int| 0 <= k < bs.len() ==> wf_block(#[trigger] bs[k]),
        0 <= i,
        i + ser_blocks(bs).len() < s.len(),
        s.subrange(i, i + ser_blocks(bs).len()) == ser_blocks(bs),
        s[i + ser_blocks(bs).len()] == RBRACK,
    ensures
        parse_block_list(s, i) == Some((bs, i + ser_blocks(bs).len() + 1)),
    decreases bs.len(),
{
    let sb = ser_blocks(bs);
    assert forall|m: int| 0 <= m < sb.len() implies s[i + m] == sb[m] by {
        assert(s.subrange(i, i + sb.len())[m] == s[i + m]);
    }
    let b0 = bs[0];
    let bl = ser_block(b0);
    assert(bl.len() > 0);
    if bs.len() == 1 {
        assert(sb == bl);
        assert(s.subrange(i, i + bl.len()) == bl);
        lemma_parse_block_complete(s, i, b0);
        let j = i + bl.len();
        assert(s[j] == RBRACK);
        assert(skip_ws(s, j) == j);
        assert(seq![b0] =~= bs);
    } else {
        let rest = bs.drop_first();
        let rs = ser_blocks(rest);
        assert(sb == bl + seq![COMMA] + rs);
        assert(rest.len() > 0);
        assert(rs.len() > 0) by {
            assert(ser_block(rest[0]).len() > 0);
        }
        assert(s.subrange(i, i + bl.len()) =~= bl) by {
            assert forall|m: int| 0 <= m < bl.len() implies s.subrange(i, i + bl.len())[m]
                == bl[m] by {
                assert(s[i + m] == sb[m]);
            }
        }
        lemma_parse_block_complete(s, i, b0);
        let j = i + bl.len();
        assert(s[j] == sb[bl.len() as int]);
        assert(s[j] == COMMA);
        assert(skip_ws(s, j) == j);
        assert(s.subrange(j + 1, j + 1 + rs.len()) =~= rs) by {
            assert forall|m: int| 0 <= m < rs.len() implies s.subrange(j + 1, j + 1 + rs.len())[m]
                == rs[m] by {
                assert(s[j + 1 + m] == sb[bl.len() + 1 + m]);
            }
        }
        assert forall|k: int| 0 <= k < rest.len() implies wf_block(#[trigger] rest[k]) by {
            assert(rest[k] == bs[k + 1]);
        }
        assert(j + 1 + rs.len() == i + sb.len());
        assert(s[j + 1 + rs.len()] == RBRACK);
        lemma_parse_list_complete(s, j + 1, rest);
        assert(seq![b0] + rest =~= bs);
    }
}

/// Round trip: decoding the canonical encoding of any well-formed document
/// yields exactly that document, block order, identifiers, types and
/// property tables preserved.
pub proof fn lemma_round_trip(d: DocModel)
    requires
        wf_doc(d),
    ensures
        decode_spec(ser_doc(d)) == Some(d),
{
    lemma_kw_raw();
    let s = ser_doc(d);
    let sb = ser_blocks(d.blocks);
    assert(s == lit_doc_open() + sb + seq![RBRACK, RBRACE]);
    assert(s.len() == 11 + sb.len() + 2);
    assert forall|m: int| 0 <= m < s.len() implies s[m] == (lit_doc_open() + sb + seq![
        RBRACK,
        RBRACE,
    ])[m] by {}
    assert(s[0] == LBRACE);
    assert(s[1] == QUOTE);
    assert(s[8] == QUOTE);
    assert(s[9] == COLON);
    assert(s[10] == LBRACK);
    let e = 11 + sb.len() as int;
    assert(s[e] == RBRACK);
    assert(s[e + 1] == RBRACE);
    assert(skip_ws(s, 0) == 0);
    assert(skip_ws(s, 1) == 1);
    assert(s.subrange(2, 8) =~= kw_blocks()) by {
        assert forall|m: int| 0 <= m < 6 implies s.subrange(2, 8)[m] == kw_blocks()[m] by {
            assert(s.subrange(2, 8)[m] == s[2 + m]);
            assert(s[2 + m] == lit_doc_open()[2 + m]);
        }
    }
    lemma_parse_str_complete(s, 2, kw_blocks());
    assert(parse_str_body(s, 2) == Some((kw_blocks(), 9int)));
    assert(skip_ws(s, 9) == 9);
    assert(skip_ws(s, 10) == 10);
    if d.blocks.len() == 0 {
        assert(sb.len() == 0);
        assert(s[11] == RBRACK);
        assert(skip_ws(s, 11) == 11);
        assert(doc_member_value(s, 10, kw_blocks(), None) == Some(
            (Some(Seq::<BlockModel>::empty()), 12int),
        ));
        assert(skip_ws(s, 12) == 12);
        assert(s[12] == RBRACE);
        assert(parse_doc_members(s, 1, None) == Some((Seq::<BlockModel>::empty(), 13int)));
        assert(skip_ws(s, 13) == 13);
        assert(d.blocks =~= Seq::<BlockModel>::empty());
        assert(DocModel { blocks: Seq::empty() } == d);
    } else {
        assert(ser_block(d.blocks[0]).len() > 0);
        assert(sb[0] == ser_block(d.blocks[0])[0]);
        assert(sb[0] == LBRACE);
        assert(s[11] == sb[0]);
        assert(skip_ws(s, 11) == 11);
        assert(s[11] != RBRACK);
        assert(s.subrange(11, 11 + sb.len() as int) =~= sb) by {
            assert forall|m: int| 0 <= m < sb.len() implies s.subrange(
                11,
                11 + sb.len() as int,
            )[m] == sb[m] by {
                assert(s.subrange(11, 11 + sb.len() as int)[m] == s[11 + m]);
            }
        }
        lemma_parse_list_complete(s, 11, d.blocks);
        assert(parse_block_list(s, 11) == Some((d.blocks, e + 1)));
        assert(doc_member_value(s, 10, kw_blocks(), None) == Some((Some(d.blocks), e + 1)));
        assert(skip_ws(s, e + 1) == e + 1);
        assert(s[e + 1] == RBRACE);
        assert(parse_doc_members(s, 1, None) == Some((d.blocks, e + 2)));
        assert(skip_ws(s, e + 2) == e + 2);
        assert(DocModel { blocks: d.blocks } == d);
    }
}

/// Bytes that decoding rejects are no well-formed document's encoding.
pub proof fn lemma_decode_rejects_no_encoding(s: Seq<u8>, dm: DocModel)
    requires
        wf_doc(dm),
        decode_spec(s) is None,
    ensures
        s != ser_doc(dm),
{
    if s == ser_doc(dm) {
        lemma_round_trip(dm);
    }
}

} // verus!

verus! {

pub proof fn lemma_locate_bounds(blocks: Seq<BlockModel>, id: Seq<u8>, j: int, ix: int)
    requires
        locate_from(blocks, id, j) == Some(ix),
    ensures
        j <= ix < blocks.len(),
        blocks[ix].id == id,
    decreases blocks.len() - j,
{
    if !(j < 0 || j >= blocks.len()) && blocks[j].id != id {
        lemma_locate_bounds(blocks, id, j + 1, ix);
    }
}

/// Replacing a property table moves no identifier: the same block is found
/// before and after an update.
pub proof fn lemma_locate_update(d: DocModel, ix: int, props: Seq<u8>, id: Seq<u8>, j: int)
    requires
        0 <= ix < d.blocks.len(),
    ensures
        locate_from(update_doc(d, ix, props).blocks, id, j) == locate_from(d.blocks, id, j),
    decreases d.blocks.len() - j,
{
    let ub = update_doc(d, ix, props).blocks;
    if !(j < 0 || j >= d.blocks.len()) {
        assert(ub[j].id == d.blocks[j].id);
        if d.blocks[j].id != id {
            lemma_locate_update(d, ix, props, id, j + 1);
        }
    }
}

pub proof fn lemma_update_twice(d: DocModel, ix: int, props: Seq<u8>)
    requires
        0 <= ix < d.blocks.len(),
    ensures
        update_doc(update_doc(d, ix, props), ix, props) == update_doc(d, ix, props),
{
    assert(update_doc(update_doc(d, ix, props), ix, props).blocks =~= update_doc(
        d,
        ix,
        props,
    ).blocks);
}

pub proof fn lemma_update_wf(d: DocModel, ix: int, props: Seq<u8>)
    requires
        wf_doc(d),
        wf_props_text(props),
        0 <= ix < d.blocks.len(),
    ensures
        wf_doc(update_doc(d, ix, props)),
{
    let ub = update_doc(d, ix, props).blocks;
    assert forall|k: int| 0 <= k < ub.len() implies wf_block(#[trigger] ub[k]) by {
        assert(wf_block(d.blocks[k]));
    }
}

} // verus!

//! Documents and the blocks they are made of.
//!
//! A fetched page is a [`Document`]: its title and the ordered blocks under
//! it. The remote schema is heterogeneous, so a block is a tagged variant;
//! link discovery is one exhaustive match over the variants, and
//! [`Document::child_ids`] turns it into the deduplicated list of
//! identifiers a document links to.

use vstd::prelude::*;

verus! {

broadcast use vstd::seq_lib::lemma_seq_contains_after_push;

/// One content block of a fetched page. Variants that point at another page
/// carry that page's identifier as their payload; the rest carry none,
/// because the traversal reads nothing else out of a block.
#[derive(Clone, Copy, Debug, PartialEq, Eq, Structural)]
pub enum Block {
    /// Plain text; no outgoing link.
    Paragraph,
    /// A heading; no outgoing link.
    Heading,
    /// A list item; no outgoing link.
    ListItem,
    /// A page nested directly under this one.
    ChildPage(u64),
    /// A mention of another page elsewhere.
    LinkToPage(u64),
    /// Any block kind the traversal does not read.
    Other,
}

/// The identifier a block points at, if any.
pub open spec fn block_ref(b: Block) -> Option<u64> {
    match b {
        Block::ChildPage(id) => Some(id),
        Block::LinkToPage(id) => Some(id),
        Block::Paragraph => None,
        Block::Heading => None,
        Block::ListItem => None,
        Block::Other => None,
    }
}

/// The identifier a block points at, if any.
pub fn block_child(b: &Block) -> (r: Option<u64>)
    ensures
        r == block_ref(*b),
{
    match b {
        Block::ChildPage(id) => Some(*id),
        Block::LinkToPage(id) => Some(*id),
        Block::Paragraph => None,
        Block::Heading => None,
        Block::ListItem => None,
        Block::Other => None,
    }
}

/// The identifiers referenced by a sequence of blocks: one entry per
/// referencing block, in block order, duplicates included.
pub open spec fn refs_seq(blocks: Seq<Block>) -> Seq<u64>
    decreases blocks.len(),
{
    if blocks.len() == 0 {
        Seq::empty()
    } else {
        match block_ref(blocks.last()) {
            Some(id) => refs_seq(blocks.drop_last()).push(id),
            None => refs_seq(blocks.drop_last()),
        }
    }
}

/// The set of identifiers a document links to.
pub open spec fn doc_children(d: DocView) -> Set<u64> {
    refs_seq(d.blocks).to_set()
}

/// `s` with every repeated entry dropped: each value keeps its first
/// occurrence only, in order.
pub open spec fn dedup_first(s: Seq<u64>) -> Seq<u64>
    decreases s.len(),
{
    if s.len() == 0 {
        Seq::empty()
    } else if s.drop_last().contains(s.last()) {
        dedup_first(s.drop_last())
    } else {
        dedup_first(s.drop_last()).push(s.last())
    }
}

/// Deduplication keeps exactly the values of the sequence.
pub proof fn lemma_dedup_first_contains(s: Seq<u64>, x: u64)
    ensures
        dedup_first(s).contains(x) == s.contains(x),
    decreases s.len(),
{
    if s.len() > 0 {
        lemma_dedup_first_contains(s.drop_last(), x);
        if s.contains(x) {
            let k = choose|k: int| 0 <= k < s.len() && s[k] == x;
            if k < s.len() - 1 {
                assert(s.drop_last()[k] == x);
                assert(s.drop_last().contains(x));
            }
        }
        if s.drop_last().contains(x) {
            let k = choose|k: int| 0 <= k < s.drop_last().len() && s.drop_last()[k] == x;
            assert(s[k] == x);
        }
        if s.last() == x {
            assert(s[s.len() - 1] == x);
        }
    }
}

/// The mathematical value of a [`Document`].
#[verifier::ext_equal]
pub struct DocView {
    /// The title, as a sequence of characters.
    pub title: Seq<char>,
    /// The blocks, in document order.
    pub blocks: Seq<Block>,
}

/// A fetched page: its title and the ordered blocks beneath it. A value is
/// only ever built whole, from one successful remote fetch; the store never
/// mutates one in place.
#[derive(Clone, Debug, PartialEq, Eq)]
pub struct Document {
    /// The page title.
    pub title: String,
    /// The page's content blocks, in order.
    pub blocks: Vec<Block>,
}

impl View for Document {
    type V = DocView;

    open spec fn view(&self) -> DocView {
        DocView { title: self.title@, blocks: self.blocks@ }
    }
}

/// The per-identifier views of a table of documents.
pub open spec fn table_view(m: Map<u64, Document>) -> Map<u64, DocView> {
    Map::new(|k: u64| m.contains_key(k), |k: u64| m[k]@)
}

impl Document {
    /// Makes a document from its parts.
    pub fn new(title: String, blocks: Vec<Block>) -> (d: Document)
        ensures
            d@.title == title@,
            d@.blocks == blocks@,
    {
        Document { title, blocks }
    }

    /// An identical copy.
    pub fn duplicate(&self) -> (d: Document)
        ensures
            d@ == self@,
    {
        let mut blocks: Vec<Block> = Vec::new();
        let mut i: usize = 0;
        while i < self.blocks.len()
            invariant
                i <= self.blocks.len(),
                blocks@ == self.blocks@.take(i as int),
            decreases self.blocks.len() - i,
        {
            proof {
                assert(self.blocks@.take(i + 1) =~= self.blocks@.take(i as int).push(
                    self.blocks@[i as int],
                ));
            }
            blocks.push(self.blocks[i]);
            i = i + 1;
        }
        proof {
            assert(self.blocks@.take(self.blocks@.len() as int) =~= self.blocks@);
        }
        Document { title: self.title.clone(), blocks }
    }

    /// The distinct identifiers this document links to: every identifier
    /// some block references, exactly once, each at its first occurrence,
    /// in document order.
    pub fn child_ids(&self) -> (r: Vec<u64>)
        ensures
            r@ == dedup_first(refs_seq(self@.blocks)),
            r@.to_set() == doc_children(self@),
            forall|p: int, q: int| 0 <= p < q < r@.len() ==> r@[p] != r@[q],
    {
        let mut out: Vec<u64> = Vec::new();
        let mut i: usize = 0;
        while i < self.blocks.len()
            invariant
                i <= self.blocks.len(),
                out@ == dedup_first(refs_seq(self.blocks@.take(i as int))),
                out@.to_set() == refs_seq(self.blocks@.take(i as int)).to_set(),
                forall|p: int, q: int| 0 <= p < q < out@.len() ==> out@[p] != out@[q],
            decreases self.blocks.len() - i,
        {
            let ghost pre = self.blocks@.take(i as int);
            proof {
                assert(self.blocks@.take(i + 1).drop_last() =~= pre);
                assert(self.blocks@.take(i + 1).last() == self.blocks@[i as int]);
            }
            match block_child(&self.blocks[i]) {
                Some(id) => {
                    let ghost grown = refs_seq(pre).push(id);
                    proof {
                        assert(refs_seq(self.blocks@.take(i + 1)) == grown);
                        assert(grown.drop_last() =~= refs_seq(pre));
                        assert(grown.last() == id);
                        lemma_dedup_first_contains(refs_seq(pre), id);
                    }
                    if !contains_id(&out, id) {
                        let ghost old_out = out@;
                        out.push(id);
                        proof {
                            lemma_push_to_set(old_out, id);
                            lemma_push_to_set(refs_seq(pre), id);
                        }
                    } else {
                        proof {
                            lemma_push_to_set(refs_seq(pre), id);
                            assert(out@.contains(id));
                            assert(out@.to_set().insert(id) =~= out@.to_set());
                        }
                    }
                },
                None => {},
            }
            i = i + 1;
        }
        proof {
            assert(self.blocks@.take(self.blocks@.len() as int) =~= self.blocks@);
        }
        out
    }
}

/// Pushing an element onto a sequence inserts it into the sequence's set of
/// elements.
proof fn lemma_push_to_set(s: Seq<u64>, x: u64)
    ensures
        s.push(x).to_set() == s.to_set().insert(x),
{
    assert forall|y: u64| s.push(x).to_set().contains(y) implies s.to_set().insert(x).contains(
        y,
    ) by {
        let k = choose|k: int| 0 <= k < s.push(x).len() && s.push(x)[k] == y;
        if k < s.len() {
            assert(s[k] == y);
        }
    }
    assert forall|y: u64| s.to_set().insert(x).contains(y) implies s.push(x).to_set().contains(
        y,
    ) by {
        if y == x {
            assert(s.push(x)[s.len() as int] == y);
        } else {
            let k = choose|k: int| 0 <= k < s.len() && s[k] == y;
            assert(s.push(x)[k] == y);
        }
    }
    assert(s.push(x).to_set() =~= s.to_set().insert(x));
}

/// Whether `x` occurs in `v`.
fn contains_id(v: &Vec<u64>, x: u64) -> (b: bool)
    ensures
        b == v@.contains(x),
{
    let mut i: usize = 0;
    while i < v.len()
        invariant
            i <= v.len(),
            forall|k: int| 0 <= k < i ==> v@[k] != x,
        decreases v.len() - i,
    {
        if v[i] == x {
            return true;
        }
        i = i + 1;
    }
    false
}

} // verus!

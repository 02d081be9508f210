//! A puncturable pseudorandom function on one-byte tags, built as a
//! Goldreich-Goldwasser-Micali tree of depth 8. Only the frontier of the tree
//! is kept: the seeds of the subtrees whose leaves are the tags that can
//! still be evaluated.

use crate::error::PPRFError;
use crate::secret::{erase, Seed};
use crate::strobe::{strobe_digest, strobe_prf};
use vstd::prelude::*;

verus! {

/// Number of tags in the domain.
pub const TAG_DOMAIN: usize = 256;

/// The label under which a seed is stretched into its two child seeds.
pub open spec fn prg_label() -> Seq<char> {
    "ppoprf_ggm_prg"@
}

/// The seed of the left or right child of a node with seed `seed`: the first
/// or the second half of the seed's 64-byte digest.
pub open spec fn child_seed(seed: Seq<u8>, right: bool) -> Seq<u8> {
    let stretched = strobe_digest(prg_label(), seed);
    if right {
        stretched.subrange(32, 64)
    } else {
        stretched.subrange(0, 32)
    }
}

/// The first `depth` bits of `tag`, most significant bit first, as a number.
pub open spec fn prefix_of(tag: nat, depth: nat) -> nat
    decreases 8 - depth,
{
    if depth >= 8 {
        tag
    } else {
        prefix_of(tag, depth + 1) / 2
    }
}

/// Whether `tag` is a leaf of the subtree rooted at the node `(depth, prefix)`.
pub open spec fn covers(depth: nat, prefix: nat, tag: u8) -> bool {
    prefix_of(tag as nat, depth) == prefix
}

/// The number of leaves below a node at depth `depth`.
pub open spec fn span(depth: nat) -> nat {
    if depth == 0 {
        256
    } else if depth == 1 {
        128
    } else if depth == 2 {
        64
    } else if depth == 3 {
        32
    } else if depth == 4 {
        16
    } else if depth == 5 {
        8
    } else if depth == 6 {
        4
    } else if depth == 7 {
        2
    } else {
        1
    }
}

/// Whether `(depth, prefix)` is a node of the tree.
pub open spec fn in_tree(depth: nat, prefix: nat) -> bool {
    depth <= 8 && prefix * span(depth) < 256
}

/// The other child of the parent of the node with prefix `prefix`.
pub open spec fn sibling_of(prefix: nat) -> nat {
    if prefix % 2 == 1 {
        (prefix - 1) as nat
    } else {
        prefix + 1
    }
}

/// The seed of the node `(depth, prefix)` in the tree grown from `root`.
pub open spec fn node_seed(root: Seq<u8>, depth: nat, prefix: nat) -> Seq<u8>
    decreases depth,
{
    if depth == 0 {
        root
    } else {
        child_seed(node_seed(root, (depth - 1) as nat, prefix / 2), prefix % 2 == 1)
    }
}

/// The value of the function at `tag`: the seed of the leaf with path `tag`.
pub open spec fn leaf(root: Seq<u8>, tag: u8) -> Seq<u8> {
    node_seed(root, 8, tag as nat)
}

/// The root of a subtree all of whose leaves can still be evaluated.
struct CoverSeed {
    depth: u8,
    prefix: u8,
    seed: Seed,
}

impl Clone for CoverSeed {
    /// A copy of the node, with a copy of its seed.
    fn clone(&self) -> (copy: CoverSeed)
        ensures
            copy == *self,
    {
        let copy = CoverSeed { depth: self.depth, prefix: self.prefix, seed: self.seed.clone() };
        proof {
            lemma_same_node(copy, *self);
        }
        copy
    }
}

impl CoverSeed {
    /// Whether `tag` lies below this node.
    spec fn covers(self, tag: u8) -> bool {
        covers(self.depth as nat, self.prefix as nat, tag)
    }

    /// Whether the node lies in the tree and holds the seed that the tree
    /// grown from `root` has at its position.
    spec fn derived_from(self, root: Seq<u8>) -> bool {
        &&& in_tree(self.depth as nat, self.prefix as nat)
        &&& self.seed@ == node_seed(root, self.depth as nat, self.prefix as nat)
    }

    /// Whether the node is as high in the tree as it can be while `active`
    /// are the tags that can be evaluated: it is the root, or some tag below
    /// its sibling is not active, so that its parent could not stand for both.
    spec fn is_maximal(self, active: Set<u8>) -> bool {
        self.depth > 0 ==> exists|t: u8| #[trigger]
            covers(self.depth as nat, sibling_of(self.prefix as nat), t) && !active.contains(t)
    }
}

/// Whether some node of `cover` covers `tag`.
spec fn covered(cover: Seq<CoverSeed>, tag: u8) -> bool {
    exists|i: int| 0 <= i < cover.len() && #[trigger] cover[i].covers(tag)
}

/// Whether no tag lies below two nodes of `cover`.
spec fn disjoint(cover: Seq<CoverSeed>) -> bool {
    forall|i: int, j: int, tag: u8|
        #![trigger cover[i].covers(tag), cover[j].covers(tag)]
        0 <= i < cover.len() && 0 <= j < cover.len() && i != j && cover[i].covers(tag)
            ==> !cover[j].covers(tag)
}

/// Whether every node of `cover` holds the seed of its position under `root`.
spec fn all_derived(cover: Seq<CoverSeed>, root: Seq<u8>) -> bool {
    forall|i: int| 0 <= i < cover.len() ==> #[trigger] cover[i].derived_from(root)
}

/// Whether every node of `cover` is as high in the tree as it can be.
spec fn all_maximal(cover: Seq<CoverSeed>, active: Set<u8>) -> bool {
    forall|i: int| 0 <= i < cover.len() ==> #[trigger] cover[i].is_maximal(active)
}

/// The tags that lie below some node of `cover`.
spec fn covered_tags(cover: Seq<CoverSeed>) -> Set<u8> {
    Set::new(|tag: u8| covered(cover, tag))
}

/// Whether `tag` lies below the node at the position `node`, a depth and a prefix.
pub open spec fn node_covers(node: (u8, u8), tag: u8) -> bool {
    covers(node.0 as nat, node.1 as nat, tag)
}

/// Whether the nodes at the positions `nodes`, each a depth and a prefix,
/// are the minimal cover of `active`: every node lies in the tree, every
/// active tag lies below exactly one node and no other tag lies below any,
/// and no two nodes could be replaced by their parent.
pub open spec fn is_minimal_cover(nodes: Seq<(u8, u8)>, active: Set<u8>) -> bool {
    &&& forall|i: int|
        0 <= i < nodes.len() ==> in_tree((#[trigger] nodes[i]).0 as nat, nodes[i].1 as nat)
    &&& forall|t: u8|
        active.contains(t) <==> exists|i: int|
            0 <= i < nodes.len() && #[trigger] node_covers(nodes[i], t)
    &&& forall|i: int, j: int, t: u8|
        #![trigger node_covers(nodes[i], t), node_covers(nodes[j], t)]
        0 <= i < nodes.len() && 0 <= j < nodes.len() && i != j && node_covers(nodes[i], t)
            ==> !node_covers(nodes[j], t)
    &&& forall|i: int|
        0 <= i < nodes.len() && (#[trigger] nodes[i]).0 > 0 ==> exists|t: u8| #[trigger]
            covers(nodes[i].0 as nat, sibling_of(nodes[i].1 as nat), t) && !active.contains(t)
}

/// What a puncturable function is to its users: the root seed that fixes its
/// values, and the tags at which it can still be evaluated.
pub struct GgmView {
    pub root: Seq<u8>,
    pub active: Set<u8>,
}

impl GgmView {
    /// The value at `tag`, where it can still be evaluated.
    pub open spec fn eval(self, tag: u8) -> Result<Seq<u8>, PPRFError> {
        if self.active.contains(tag) {
            Ok(leaf(self.root, tag))
        } else {
            Err(PPRFError::NoPrefixFound)
        }
    }

    /// The function with `tag` taken out.
    pub open spec fn punctured(self, tag: u8) -> GgmView {
        GgmView { root: self.root, active: self.active.remove(tag) }
    }
}

/// The puncturable pseudorandom function. Its seeds are erased from memory
/// when they are dropped: the seeds on the path to a tag when the tag is
/// punctured, and all of them with the function itself.
pub struct GGM {
    cover: Vec<CoverSeed>,
    root: Ghost<Seq<u8>>,
}

impl View for GGM {
    type V = GgmView;

    closed spec fn view(&self) -> GgmView {
        GgmView { root: self.root@, active: covered_tags(self.cover@) }
    }
}

impl Clone for GGM {
    /// A copy with the same root and the same active tags.
    fn clone(&self) -> (copy: GGM)
        ensures
            copy@ == self@,
    {
        proof {
            use_type_invariant(self);
        }
        let mut cover: Vec<CoverSeed> = Vec::new();
        let mut i: usize = 0;
        while i < self.cover.len()
            invariant
                i <= self.cover@.len(),
                cover@ == self.cover@.subrange(0, i as int),
            decreases self.cover@.len() - i,
        {
            cover.push(self.cover[i].clone());
            assert(cover@ =~= self.cover@.subrange(0, i + 1));
            i += 1;
        }
        assert(cover@ =~= self.cover@);
        GGM { cover, root: self.root }
    }
}

/// Calls `fill_bytes` of rand_core's `OsRng`: 32 bytes from the operating
/// system's generator, of which nothing is known beforehand.
#[verifier::external_body]
fn random_seed() -> (seed: [u8; 32]) {
    let mut seed = [0u8; 32];
    rand_core::RngCore::fill_bytes(&mut rand_core::OsRng, &mut seed);
    seed
}

/// Two nodes at one position with one seed are the same node.
proof fn lemma_same_node(first: CoverSeed, second: CoverSeed)
    requires
        first.depth == second.depth,
        first.prefix == second.prefix,
        first.seed@ == second.seed@,
    ensures
        first == second,
{
    first.seed.lemma_decided_by_view(&second.seed);
}

/// Every tag has the empty prefix at depth 0.
proof fn lemma_root_covers(tag: u8)
    ensures
        covers(0, 0, tag),
{
    reveal_with_fuel(prefix_of, 10);
}

/// The prefix of a tag at a depth is the tag divided by the number of leaves
/// below a node at that depth.
proof fn lemma_prefix_is_quotient(tag: nat, depth: nat)
    requires
        depth <= 8,
    ensures
        prefix_of(tag, depth) == tag / span(depth),
{
    reveal_with_fuel(prefix_of, 10);
}

/// Every node of the tree has a leaf: the tag whose bits are the node's
/// prefix followed by zeros lies below it.
pub proof fn lemma_node_has_leaf(depth: nat, prefix: nat)
    requires
        in_tree(depth, prefix),
    ensures
        prefix * span(depth) < 256,
        covers(depth, prefix, (prefix * span(depth)) as u8),
{
    lemma_prefix_is_quotient(prefix * span(depth), depth);
    assert((prefix * span(depth)) / span(depth) == prefix) by (nonlinear_arith)
        requires
            span(depth) > 0,
    ;
}

/// The sibling of the node on the path to a tag lies in the tree.
proof fn lemma_sibling_in_tree(tag: u8, depth: nat)
    requires
        depth < 8,
    ensures
        in_tree(depth + 1, sibling_of(prefix_of(tag as nat, depth + 1))),
{
    lemma_prefix_is_quotient(tag as nat, depth + 1);
}

/// A tag lies below a node exactly if it lies below one of its two children.
proof fn lemma_children(depth: nat, child: nat, tag: u8)
    requires
        depth < 8,
    ensures
        covers(depth, child / 2, tag) <==> (covers(depth + 1, child, tag) || covers(
            depth + 1,
            sibling_of(child),
            tag,
        )),
        !(covers(depth + 1, child, tag) && covers(depth + 1, sibling_of(child), tag)),
        sibling_of(child) / 2 == child / 2,
{
}

/// One half of a stretched seed, as a seed.
fn half(stretched: &[u8; 64], right: bool) -> (seed: Seed)
    ensures
        seed@ == if right {
            stretched@.subrange(32, 64)
        } else {
            stretched@.subrange(0, 32)
        },
{
    let mut out = [0u8; 32];
    let offset: usize = if right { 32 } else { 0 };
    let mut i: usize = 0;
    while i < 32
        invariant
            i <= 32,
            offset == 0 || offset == 32,
            forall|k: int| 0 <= k < i ==> out@[k] == stretched@[offset + k],
        decreases 32 - i,
    {
        out[i] = stretched[offset + i];
        i += 1;
    }
    proof {
        if right {
            assert(out@ =~= stretched@.subrange(32, 64));
        } else {
            assert(out@ =~= stretched@.subrange(0, 32));
        }
    }
    let seed = Seed::new(out);
    erase(&mut out);
    seed
}

/// The first `depth` bits of `tag`.
fn prefix_at(tag: u8, depth: u8) -> (prefix: u8)
    requires
        depth <= 8,
    ensures
        prefix == prefix_of(tag as nat, depth as nat),
{
    let mut prefix: u8 = tag;
    let mut level: u8 = 8;
    while level > depth
        invariant
            depth <= level <= 8,
            prefix == prefix_of(tag as nat, level as nat),
        decreases level,
    {
        prefix = prefix / 2;
        level -= 1;
    }
    prefix
}

/// Taking one node out of a cover leaves a cover, of the tags that the other
/// nodes cover.
proof fn lemma_remove_node(cover: Seq<CoverSeed>, at: int, root: Seq<u8>)
    requires
        0 <= at < cover.len(),
        all_derived(cover, root),
        disjoint(cover),
    ensures
        all_derived(cover.remove(at), root),
        disjoint(cover.remove(at)),
        forall|t: u8|
            #![trigger covered(cover.remove(at), t)]
            covered(cover.remove(at), t) <==> covered(cover, t) && !cover[at].covers(t),
        forall|active: Set<u8>|
            #![trigger all_maximal(cover.remove(at), active)]
            all_maximal(cover, active) ==> all_maximal(cover.remove(at), active),
{
    let rest = cover.remove(at);
    assert forall|m: int| 0 <= m < rest.len() implies rest[m] == cover[if m < at {
        m
    } else {
        m + 1
    }] by {}
    assert forall|m: int| 0 <= m < rest.len() implies #[trigger] rest[m].derived_from(root) by {
        assert(cover[if m < at { m } else { m + 1 }].derived_from(root));
    }
    assert forall|m: int, n: int, t: u8|
        0 <= m < rest.len() && 0 <= n < rest.len() && m != n && #[trigger] rest[m].covers(
            t,
        ) implies !#[trigger] rest[n].covers(t) by {
        let k = if m < at { m } else { m + 1 };
        let l = if n < at { n } else { n + 1 };
        assert(cover[k].covers(t));
        assert(!cover[l].covers(t));
    }
    assert forall|active: Set<u8>| all_maximal(cover, active) implies #[trigger] all_maximal(
        rest,
        active,
    ) by {
        assert forall|m: int| 0 <= m < rest.len() implies #[trigger] rest[m].is_maximal(
            active,
        ) by {
            assert(cover[if m < at { m } else { m + 1 }].is_maximal(active));
        }
    }
    assert forall|t: u8| covered(rest, t) <==> covered(cover, t) && !cover[at].covers(t) by {
        if covered(rest, t) {
            let m = choose|m: int| 0 <= m < rest.len() && #[trigger] rest[m].covers(t);
            let k = if m < at { m } else { m + 1 };
            assert(cover[k].covers(t));
            assert(!cover[at].covers(t));
        }
        if covered(cover, t) && !cover[at].covers(t) {
            let k = choose|k: int| 0 <= k < cover.len() && #[trigger] cover[k].covers(t);
            let m = if k < at { k } else { k - 1 };
            assert(rest[m].covers(t));
        }
    }
}

/// Adding a node that covers none of a cover's tags leaves a cover, of the
/// tags of both.
proof fn lemma_push_node(cover: Seq<CoverSeed>, node: CoverSeed, root: Seq<u8>)
    requires
        all_derived(cover, root),
        disjoint(cover),
        node.derived_from(root),
        forall|t: u8| node.covers(t) ==> !covered(cover, t),
    ensures
        all_derived(cover.push(node), root),
        disjoint(cover.push(node)),
        forall|t: u8|
            #![trigger covered(cover.push(node), t)]
            covered(cover.push(node), t) <==> covered(cover, t) || node.covers(t),
        forall|active: Set<u8>|
            #![trigger all_maximal(cover.push(node), active)]
            all_maximal(cover, active) && node.is_maximal(active) ==> all_maximal(
                cover.push(node),
                active,
            ),
{
    let grown = cover.push(node);
    assert forall|m: int| 0 <= m < grown.len() implies #[trigger] grown[m].derived_from(root) by {
        if m < cover.len() {
            assert(cover[m].derived_from(root));
        }
    }
    assert forall|m: int, n: int, t: u8|
        0 <= m < grown.len() && 0 <= n < grown.len() && m != n && #[trigger] grown[m].covers(
            t,
        ) implies !#[trigger] grown[n].covers(t) by {
        if m < cover.len() && n < cover.len() {
            assert(cover[m].covers(t));
            assert(!cover[n].covers(t));
        } else if m < cover.len() {
            assert(cover[m].covers(t));
            assert(covered(cover, t));
        } else {
            if cover[n].covers(t) {
                assert(covered(cover, t));
            }
        }
    }
    assert forall|active: Set<u8>|
        all_maximal(cover, active) && node.is_maximal(active) implies #[trigger] all_maximal(
        grown,
        active,
    ) by {
        assert forall|m: int| 0 <= m < grown.len() implies #[trigger] grown[m].is_maximal(
            active,
        ) by {
            if m < cover.len() {
                assert(cover[m].is_maximal(active));
            }
        }
    }
    assert forall|t: u8| covered(grown, t) <==> covered(cover, t) || node.covers(t) by {
        if covered(grown, t) {
            let m = choose|m: int| 0 <= m < grown.len() && #[trigger] grown[m].covers(t);
            if m < cover.len() {
                assert(cover[m].covers(t));
            }
        }
        if covered(cover, t) {
            let k = choose|k: int| 0 <= k < cover.len() && #[trigger] cover[k].covers(t);
            assert(grown[k].covers(t));
        }
        if node.covers(t) {
            assert(grown[cover.len() as int].covers(t));
        }
    }
}

/// A cover that is maximal for a set of active tags is maximal for every
/// smaller set.
proof fn lemma_maximal_for_fewer(cover: Seq<CoverSeed>, active: Set<u8>, fewer: Set<u8>)
    requires
        all_maximal(cover, active),
        fewer.subset_of(active),
    ensures
        all_maximal(cover, fewer),
{
    assert forall|i: int| 0 <= i < cover.len() implies #[trigger] cover[i].is_maximal(fewer) by {
        assert(cover[i].is_maximal(active));
        if cover[i].depth > 0 {
            let t = choose|t: u8| #[trigger]
                covers(cover[i].depth as nat, sibling_of(cover[i].prefix as nat), t)
                    && !active.contains(t);
            assert(covers(cover[i].depth as nat, sibling_of(cover[i].prefix as nat), t)
                && !fewer.contains(t));
        }
    }
}

impl GGM {
    #[verifier::type_invariant]
    spec fn well_formed(self) -> bool {
        &&& all_derived(self.cover@, self.root@)
        &&& disjoint(self.cover@)
        &&& all_maximal(self.cover@, covered_tags(self.cover@))
    }

    /// A fresh function on a random root seed, with every tag active.
    pub fn setup() -> (ggm: GGM)
        ensures
            ggm@.active == Set::<u8>::full(),
    {
        let mut seed = random_seed();
        let ggm = GGM::from_seed(seed);
        erase(&mut seed);
        ggm
    }

    /// The function that grows from the root seed `seed`, with every tag
    /// active. The seed has to come from a cryptographic random generator.
    pub fn from_seed(seed: [u8; 32]) -> (ggm: GGM)
        ensures
            ggm@.root == seed@,
            ggm@.active == Set::<u8>::full(),
    {
        let mut cover: Vec<CoverSeed> = Vec::new();
        cover.push(CoverSeed { depth: 0, prefix: 0, seed: Seed::new(seed) });
        let ggm = GGM { cover, root: Ghost(seed@) };
        proof {
            assert forall|tag: u8| covered(ggm.cover@, tag) by {
                lemma_root_covers(tag);
                assert(ggm.cover@[0].covers(tag));
            }
            assert(ggm@.active =~= Set::<u8>::full());
        }
        ggm
    }

    /// The index of the node that covers `tag`, if there is one.
    fn find(&self, tag: u8) -> (found: Option<usize>)
        ensures
            match found {
                Some(i) => i < self.cover@.len() && self.cover@[i as int].covers(tag),
                None => !covered(self.cover@, tag),
            },
    {
        let mut i: usize = 0;
        while i < self.cover.len()
            invariant
                i <= self.cover@.len(),
                forall|k: int| 0 <= k < i ==> !#[trigger] self.cover@[k].covers(tag),
            decreases self.cover@.len() - i,
        {
            proof {
                use_type_invariant(self);
                assert(self.cover@[i as int].derived_from(self.root@));
            }
            let node = &self.cover[i];
            if prefix_at(tag, node.depth) == node.prefix {
                return Some(i);
            }
            i += 1;
        }
        None
    }

    /// The value of the function at `tag`, or `NoPrefixFound` where `tag` was
    /// punctured.
    pub fn eval(&self, tag: u8) -> (out: Result<Seed, PPRFError>)
        ensures
            match out {
                Ok(value) => self@.eval(tag) == Ok::<Seq<u8>, PPRFError>(value@),
                Err(e) => self@.eval(tag) == Err::<Seq<u8>, PPRFError>(e),
            },
    {
        proof {
            use_type_invariant(self);
        }
        match self.find(tag) {
            None => Err(PPRFError::NoPrefixFound),
            Some(i) => {
                assert(self.cover@[i as int].derived_from(self.root@));
                let mut seed = self.cover[i].seed.clone();
                let mut depth = self.cover[i].depth;
                while depth < 8
                    invariant
                        depth <= 8,
                        seed@ == node_seed(
                            self.root@,
                            depth as nat,
                            prefix_of(tag as nat, depth as nat),
                        ),
                    decreases 8 - depth,
                {
                    let right = prefix_at(tag, depth + 1) % 2 == 1;
                    let mut stretched = strobe_prf(seed.as_bytes().as_slice(), "ppoprf_ggm_prg");
                    seed = half(&stretched, right);
                    erase(&mut stretched);
                    depth += 1;
                }
                Ok(seed)
            },
        }
    }

    /// The positions of the cover seeds, each as depth and prefix: the
    /// minimal cover of the active tags.
    pub fn positions(&self) -> (out: Vec<(u8, u8)>)
        ensures
            is_minimal_cover(out@, self@.active),
    {
        proof {
            use_type_invariant(self);
        }
        let mut out: Vec<(u8, u8)> = Vec::new();
        let mut i: usize = 0;
        while i < self.cover.len()
            invariant
                i <= self.cover@.len(),
                out@.len() == i,
                forall|k: int|
                    0 <= k < i ==> (#[trigger] out@[k]) == (
                        self.cover@[k].depth,
                        self.cover@[k].prefix,
                    ),
            decreases self.cover@.len() - i,
        {
            out.push((self.cover[i].depth, self.cover[i].prefix));
            i += 1;
        }
        proof {
            let cover = self.cover@;
            let active = self@.active;
            assert forall|k: int| 0 <= k < out@.len() implies in_tree(
                (#[trigger] out@[k]).0 as nat,
                out@[k].1 as nat,
            ) by {
                assert(cover[k].derived_from(self.root@));
            }
            assert forall|t: u8|
                active.contains(t) <==> exists|k: int|
                    0 <= k < out@.len() && #[trigger] node_covers(out@[k], t) by {
                if active.contains(t) {
                    let k = choose|k: int| 0 <= k < cover.len() && #[trigger] cover[k].covers(t);
                    assert(node_covers(out@[k], t));
                }
                if exists|k: int| 0 <= k < out@.len() && #[trigger] node_covers(out@[k], t) {
                    let k = choose|k: int|
                        0 <= k < out@.len() && #[trigger] node_covers(out@[k], t);
                    assert(cover[k].covers(t));
                }
            }
            assert forall|a: int, b: int, t: u8|
                #![trigger node_covers(out@[a], t), node_covers(out@[b], t)]
                0 <= a < out@.len() && 0 <= b < out@.len() && a != b && node_covers(
                    out@[a],
                    t,
                ) implies !node_covers(out@[b], t) by {
                assert(cover[a].covers(t));
                assert(!cover[b].covers(t));
            }
            assert forall|k: int| 0 <= k < out@.len() && (#[trigger] out@[k]).0 > 0 implies exists|
                t: u8,
            | #[trigger]
                covers(out@[k].0 as nat, sibling_of(out@[k].1 as nat), t) && !active.contains(
                    t,
                ) by {
                assert(cover[k].is_maximal(active));
            }
        }
        out
    }

    /// The cover that is left when `tag` is taken out. The node that covers
    /// `tag` is replaced by the siblings of the nodes on the path from it down
    /// to the leaf of `tag`; the seeds on the path are dropped, and so erased.
    fn cover_without(&self, tag: u8) -> (out: Result<Vec<CoverSeed>, PPRFError>)
        ensures
            match out {
                Ok(next) => {
                    &&& covered(self.cover@, tag)
                    &&& all_derived(next@, self.root@)
                    &&& disjoint(next@)
                    &&& forall|t: u8|
                        #![trigger covered(next@, t)]
                        covered(next@, t) <==> covered(self.cover@, t) && t != tag
                    &&& all_maximal(next@, covered_tags(self.cover@).remove(tag))
                },
                Err(e) => !covered(self.cover@, tag) && e == PPRFError::NoPrefixFound,
            },
    {
        proof {
            use_type_invariant(self);
        }
        let found = self.find(tag);
        match found {
            None => Err(PPRFError::NoPrefixFound),
            Some(at) => {
                let ghost before = self.cover@;
                let ghost root = self.root@;
                assert(before[at as int].derived_from(root));
                let mut next: Vec<CoverSeed> = Vec::new();
                let mut i: usize = 0;
                while i < self.cover.len()
                    invariant
                        i <= before.len(),
                        at < before.len(),
                        self.cover@ == before,
                        next@ == if i <= at {
                            before.subrange(0, i as int)
                        } else {
                            before.subrange(0, i as int).remove(at as int)
                        },
                    decreases before.len() - i,
                {
                    if i != at {
                        next.push(self.cover[i].clone());
                    }
                    proof {
                        let grown = before.subrange(0, i + 1);
                        if i < at {
                            assert(next@ =~= grown);
                        } else if i == at {
                            assert(next@ =~= grown.remove(at as int));
                        } else {
                            assert(next@ =~= grown.remove(at as int));
                        }
                    }
                    i += 1;
                }
                let ghost target = covered_tags(before).remove(tag);
                proof {
                    assert(before.subrange(0, before.len() as int) =~= before);
                    lemma_remove_node(before, at as int, root);
                    lemma_maximal_for_fewer(before, covered_tags(before), target);
                }
                let mut seed = self.cover[at].seed.clone();
                let mut depth = self.cover[at].depth;
                proof {
                    assert forall|t: u8|
                        covers(
                            depth as nat,
                            prefix_of(tag as nat, depth as nat),
                            t,
                        ) implies covered(before, t) by {
                        assert(before[at as int].covers(t));
                    }
                }
                while depth < 8
                    invariant
                        depth <= 8,
                        seed@ == node_seed(
                            root,
                            depth as nat,
                            prefix_of(tag as nat, depth as nat),
                        ),
                        all_derived(next@, root),
                        disjoint(next@),
                        all_maximal(next@, target),
                        target == covered_tags(before).remove(tag),
                        forall|t: u8|
                            #![trigger covered(next@, t)]
                            covered(next@, t) <==> covered(before, t) && !covers(
                                depth as nat,
                                prefix_of(tag as nat, depth as nat),
                                t,
                            ),
                        forall|t: u8|
                            #![trigger covered(before, t)]
                            covers(depth as nat, prefix_of(tag as nat, depth as nat), t)
                                ==> covered(before, t),
                    decreases 8 - depth,
                {
                    let on_path = prefix_at(tag, depth + 1);
                    let right = on_path % 2 == 1;
                    let beside: u8 = if right {
                        on_path - 1
                    } else {
                        on_path + 1
                    };
                    let mut stretched = strobe_prf(seed.as_bytes().as_slice(), "ppoprf_ggm_prg");
                    let node = CoverSeed {
                        depth: depth + 1,
                        prefix: beside,
                        seed: half(&stretched, !right),
                    };
                    let below = half(&stretched, right);
                    erase(&mut stretched);
                    proof {
                        let here = depth as nat;
                        let on = on_path as nat;
                        assert(beside as nat == sibling_of(on));
                        assert(prefix_of(tag as nat, here) == on / 2);
                        lemma_children(here, on, tag);
                        lemma_sibling_in_tree(tag, here);
                        assert(node.derived_from(root));
                        assert(node.is_maximal(target)) by {
                            assert(covers(here + 1, sibling_of(beside as nat), tag));
                            assert(!target.contains(tag));
                        }
                        assert forall|t: u8| node.covers(t) implies !covered(next@, t) by {
                            lemma_children(here, on, t);
                        }
                        lemma_push_node(next@, node, root);
                        assert forall|t: u8|
                            covered(next@.push(node), t) <==> covered(before, t) && !covers(
                                here + 1,
                                on,
                                t,
                            ) by {
                            lemma_children(here, on, t);
                            assert(covered(next@.push(node), t) <==> covered(next@, t)
                                || node.covers(t));
                        }
                        assert forall|t: u8| covers(here + 1, on, t) implies covered(
                            before,
                            t,
                        ) by {
                            lemma_children(here, on, t);
                        }
                    }
                    next.push(node);
                    seed = below;
                    depth += 1;
                }
                proof {
                    reveal_with_fuel(prefix_of, 2);
                }
                Ok(next)
            },
        }
    }

    /// The function with `tag` taken out for good, or `NoPrefixFound` where
    /// `tag` was punctured before.
    pub fn punctured(&self, tag: u8) -> (out: Result<GGM, PPRFError>)
        ensures
            match out {
                Ok(next) => self@.active.contains(tag) && next@ == self@.punctured(tag),
                Err(e) => !self@.active.contains(tag) && e == PPRFError::NoPrefixFound,
            },
    {
        match self.cover_without(tag) {
            Ok(cover) => {
                assert(covered_tags(cover@) =~= covered_tags(self.cover@).remove(tag));
                let next = GGM { cover, root: self.root };
                proof {
                    assert(next@.active =~= self@.active.remove(tag));
                }
                Ok(next)
            },
            Err(e) => Err(e),
        }
    }

    /// Takes `tag` out of the function for good. Fails with `NoPrefixFound`,
    /// and changes nothing, where `tag` was punctured before.
    pub fn puncture(&mut self, tag: u8) -> (out: Result<(), PPRFError>)
        ensures
            match out {
                Ok(_) => old(self)@.active.contains(tag) && final(self)@ == old(self)@.punctured(
                    tag,
                ),
                Err(e) => !old(self)@.active.contains(tag) && e == PPRFError::NoPrefixFound
                    && final(self)@ == old(self)@,
            },
    {
        match self.cover_without(tag) {
            Ok(cover) => {
                assert(covered_tags(cover@) =~= covered_tags(self.cover@).remove(tag));
                self.cover = cover;
                proof {
                    assert(final(self)@.active =~= old(self)@.active.remove(tag));
                }
                Ok(())
            },
            Err(e) => Err(e),
        }
    }
}

} // verus!

//! Validators over the tree: reference resolution (every link must point
//! at something), and schema conformance (a schema is itself a MOTLY tree).
use vstd::prelude::*;
use crate::text::{spec_digits_val, spec_is_digit, is_digit, str_to_chars, chars_to_string, str_eq, write_u64_dec,
    lemma_cat_empty, lemma_group2};
use crate::ast::path_views;
use crate::tree::{MOTLYNode, MOTLYPropertyValue, EqValue, Scalar, Property, NodeVal, PropVal,
    EqVal, ScalarVal, view_node, view_pv, view_scalar, view_props, view_pvs, vprops_get,
    vprops_find, props_get, lemma_view_props_index, lemma_view_pvs_index};

verus! {

/// An error found during reference validation.
#[derive(Debug, PartialEq)]
pub struct ValidationError {
    pub message: String,
    /// Path in the tree where the error was found.
    pub path: Vec<String>,
    /// Machine-readable error code.
    pub code: String,
}

/// An error found during schema validation.
#[derive(Debug, PartialEq)]
pub struct SchemaError {
    pub message: String,
    /// Path in the tree where the error was found.
    pub path: Vec<String>,
    /// Machine-readable error code.
    pub code: String,
}

// ---- The link string, parsed ----------------------------------------------

/// A parsed segment of a link string: a name, an index, or malformed index
/// text (which never resolves).
pub ghost enum LinkSeg {
    SName(Seq<char>),
    SIndex(nat),
    SBad,
}

/// The ups count of a link string: `^` after an optional leading `$`.
pub open spec fn link_ups_start(s: Seq<char>) -> int {
    if s.len() > 0 && s[0] == '$' {
        1
    } else {
        0
    }
}

pub open spec fn spec_count_ups(s: Seq<char>, i: int) -> nat
    decreases s.len() - i,
{
    if i < 0 || i >= s.len() || s[i] != '^' {
        0
    } else {
        1 + spec_count_ups(s, i + 1)
    }
}

pub open spec fn spec_link_ups(s: Seq<char>) -> nat {
    spec_count_ups(s, link_ups_start(s))
}

/// The first `]` at or after `i`, or the end of the text.
pub open spec fn spec_find_close(s: Seq<char>, i: int) -> int
    decreases s.len() - i,
{
    if i < 0 || i >= s.len() {
        s.len() as int
    } else if s[i] == ']' {
        i
    } else {
        spec_find_close(s, i + 1)
    }
}

/// Is the text a non-empty digit run?
pub open spec fn spec_all_digits(s: Seq<char>) -> bool {
    s.len() > 0 && (forall|k: int| 0 <= k < s.len() ==> spec_is_digit(#[trigger] s[k]))
}

/// Scan the path part of a link string into segments; `buf` holds the name
/// characters read so far.
pub open spec fn spec_link_scan(s: Seq<char>, i: int, buf: Seq<char>) -> Seq<LinkSeg>
    decreases s.len() - i,
    via spec_link_scan_dec
{
    let flushed: Seq<LinkSeg> = if buf.len() > 0 {
        seq![LinkSeg::SName(buf)]
    } else {
        Seq::empty()
    };
    if i < 0 || i >= s.len() {
        flushed
    } else if s[i] == '.' {
        flushed + spec_link_scan(s, i + 1, Seq::empty())
    } else if s[i] == '[' {
        let close = spec_find_close(s, i + 1);
        let idxtext = s.subrange(i + 1, close);
        let seg: LinkSeg = if spec_all_digits(idxtext) {
            LinkSeg::SIndex(spec_digits_val(idxtext))
        } else {
            LinkSeg::SBad
        };
        let next: int = if close < s.len() {
            close + 1
        } else {
            close
        };
        flushed + seq![seg] + spec_link_scan(s, next, Seq::empty())
    } else {
        spec_link_scan(s, i + 1, buf.push(s[i]))
    }
}

#[via_fn]
proof fn spec_link_scan_dec(s: Seq<char>, i: int, buf: Seq<char>) {
    if 0 <= i && i < s.len() && s[i] == '[' {
        lemma_find_close_bounds(s, i + 1);
    }
}

/// The first `]` is at or after where the search starts, and within the
/// text.
pub proof fn lemma_find_close_bounds(s: Seq<char>, j: int)
    requires
        0 <= j <= s.len(),
    ensures
        j <= spec_find_close(s, j) <= s.len(),
    decreases s.len() - j,
{
    if j < s.len() && s[j] != ']' {
        lemma_find_close_bounds(s, j + 1);
    }
}

/// The segments encoded by a link string, after `$` and the carets.
pub open spec fn spec_link_segs(s: Seq<char>) -> Seq<LinkSeg> {
    spec_link_scan(s, link_ups_start(s) + spec_link_ups(s), Seq::empty())
}

// ---- Resolution -------------------------------------------------------------

/// What a node's property map holds at a key.
pub open spec fn node_get(n: NodeVal, k: Seq<char>) -> Option<PropVal> {
    match n.properties {
        Option::Some(ps) => vprops_get(ps, k),
        Option::None => Option::None,
    }
}

/// Follow parsed segments from a node. A link encountered before the final
/// segment cannot be followed; a link at the very end counts as resolved.
pub open spec fn spec_follow_link(n: NodeVal, segs: Seq<LinkSeg>, i: int) -> bool
    decreases segs.len() - i,
{
    if i < 0 || i >= segs.len() {
        true
    } else {
        match segs[i] {
            LinkSeg::SName(nm) => match node_get(n, nm) {
                Option::Some(PropVal::Node(c)) => spec_follow_link(c, segs, i + 1),
                Option::Some(PropVal::Ref(_)) => i + 1 >= segs.len(),
                Option::None => false,
            },
            LinkSeg::SIndex(ix) => match n.eq {
                Option::Some(EqVal::Array(a)) => if ix < a.len() {
                    match a[ix as int] {
                        PropVal::Node(c) => spec_follow_link(c, segs, i + 1),
                        PropVal::Ref(_) => i + 1 >= segs.len(),
                    }
                } else {
                    false
                },
                _ => false,
            },
            LinkSeg::SBad => false,
        }
    }
}

/// Whether one link resolves, given the ancestor stack (the root is at the
/// bottom; `ancestors[len - ups]` is the start for `ups > 0`).
pub open spec fn spec_link_ok(root: NodeVal, anc: Seq<NodeVal>, link: Seq<char>) -> bool {
    let ups = spec_link_ups(link);
    let segs = spec_link_segs(link);
    if ups == 0 {
        spec_follow_link(root, segs, 0)
    } else if 1 <= ups <= anc.len() {
        spec_follow_link(anc[anc.len() - ups], segs, 0)
    } else {
        false
    }
}

// ---- Every link of the tree -------------------------------------------------

/// Every link in a property value resolves; a child node pushes its parent
/// on the ancestor stack.
pub open spec fn spec_refs_ok_pv(pv: PropVal, anc: Seq<NodeVal>, parent: NodeVal, root: NodeVal) -> bool
    decreases pv, 1nat,
{
    match pv {
        PropVal::Ref(l) => spec_link_ok(root, anc, l),
        PropVal::Node(c) => spec_refs_ok_node(c, anc.push(parent), root),
    }
}

pub open spec fn spec_refs_ok_pvs(
    a: Seq<PropVal>,
    i: int,
    anc: Seq<NodeVal>,
    parent: NodeVal,
    root: NodeVal,
) -> bool
    decreases a, 0nat, a.len() - i,
{
    if i < 0 || i >= a.len() {
        true
    } else {
        spec_refs_ok_pv(a[i], anc, parent, root) && spec_refs_ok_pvs(a, i + 1, anc, parent, root)
    }
}

pub open spec fn spec_refs_ok_entries(
    ps: Seq<(Seq<char>, PropVal)>,
    i: int,
    anc: Seq<NodeVal>,
    parent: NodeVal,
    root: NodeVal,
) -> bool
    decreases ps, 0nat, ps.len() - i,
{
    if i < 0 || i >= ps.len() {
        true
    } else {
        spec_refs_ok_pv(ps[i].1, anc, parent, root) && spec_refs_ok_entries(
            ps,
            i + 1,
            anc,
            parent,
            root,
        )
    }
}

/// Every link under a node resolves: links in its array elements and in
/// its properties, recursively.
pub open spec fn spec_refs_ok_node(n: NodeVal, anc: Seq<NodeVal>, root: NodeVal) -> bool
    decreases n, 2nat,
{
    (match n.eq {
        Option::Some(EqVal::Array(a)) => spec_refs_ok_pvs(a, 0, anc, n, root),
        _ => true,
    }) && (match n.properties {
        Option::Some(ps) => spec_refs_ok_entries(ps, 0, anc, n, root),
        Option::None => true,
    })
}

/// Whether the whole tree's links resolve: the algorithm starts with the
/// root alone on the ancestor stack.
pub open spec fn spec_all_refs_ok(root: NodeVal) -> bool {
    spec_refs_ok_node(root, seq![root], root)
}

// ---- The paths of the unresolved links, in walk order --------------------------

/// The path segment written for the array element at index `i`.
pub open spec fn idx_seg(i: int) -> Seq<char> {
    seq!['['] + crate::text::spec_dec_digits(i as nat) + seq![']']
}

/// The views of a list of validation errors: each error's path.
pub open spec fn verr_paths(es: Seq<ValidationError>) -> Seq<Seq<Seq<char>>> {
    es.map(|i: int, e: ValidationError| crate::ast::path_views(e.path@))
}

/// The paths of the unresolved links under a property value standing at
/// path `p`, in walk order: the value's own path if it is a link that does
/// not resolve, else the paths under the child node.
pub open spec fn spec_ref_errs_pv(
    pv: PropVal,
    anc: Seq<NodeVal>,
    parent: NodeVal,
    root: NodeVal,
    p: Seq<Seq<char>>,
) -> Seq<Seq<Seq<char>>>
    decreases pv, 1nat,
{
    match pv {
        PropVal::Ref(l) => if spec_link_ok(root, anc, l) {
            Seq::empty()
        } else {
            seq![p]
        },
        PropVal::Node(c) => spec_ref_errs_node(c, anc.push(parent), root, p),
    }
}

/// The unresolved-link paths in the array elements from `i` on, each at
/// `p` extended with its index segment.
pub open spec fn spec_ref_errs_pvs(
    a: Seq<PropVal>,
    i: int,
    anc: Seq<NodeVal>,
    parent: NodeVal,
    root: NodeVal,
    p: Seq<Seq<char>>,
) -> Seq<Seq<Seq<char>>>
    decreases a, 0nat, a.len() - i,
{
    if i < 0 || i >= a.len() {
        Seq::empty()
    } else {
        spec_ref_errs_pv(a[i], anc, parent, root, p.push(idx_seg(i))) + spec_ref_errs_pvs(
            a,
            i + 1,
            anc,
            parent,
            root,
            p,
        )
    }
}

/// The unresolved-link paths in the property entries from `i` on, each at
/// `p` extended with its property name.
pub open spec fn spec_ref_errs_entries(
    ps: Seq<(Seq<char>, PropVal)>,
    i: int,
    anc: Seq<NodeVal>,
    parent: NodeVal,
    root: NodeVal,
    p: Seq<Seq<char>>,
) -> Seq<Seq<Seq<char>>>
    decreases ps, 0nat, ps.len() - i,
{
    if i < 0 || i >= ps.len() {
        Seq::empty()
    } else {
        spec_ref_errs_pv(ps[i].1, anc, parent, root, p.push(ps[i].0)) + spec_ref_errs_entries(
            ps,
            i + 1,
            anc,
            parent,
            root,
            p,
        )
    }
}

/// The unresolved-link paths under a node at path `p`: array elements
/// first, then properties, in order.
pub open spec fn spec_ref_errs_node(
    n: NodeVal,
    anc: Seq<NodeVal>,
    root: NodeVal,
    p: Seq<Seq<char>>,
) -> Seq<Seq<Seq<char>>>
    decreases n, 2nat,
{
    (match n.eq {
        Option::Some(EqVal::Array(a)) => spec_ref_errs_pvs(a, 0, anc, n, root, p),
        _ => Seq::empty(),
    }) + (match n.properties {
        Option::Some(ps) => spec_ref_errs_entries(ps, 0, anc, n, root, p),
        Option::None => Seq::empty(),
    })
}

/// The tree paths at which the unresolved links of the whole tree stand,
/// in walk order.
pub open spec fn spec_ref_error_paths(root: NodeVal) -> Seq<Seq<Seq<char>>> {
    spec_ref_errs_node(root, seq![root], root, Seq::empty())
}

// ---- Executable link checking -------------------------------------------------

/// Views of an ancestor stack.
pub open spec fn views_of(s: Seq<&MOTLYNode>) -> Seq<NodeVal> {
    Seq::new(s.len(), |i: int| view_node(*s[i]))
}

/// Parsed executable segments. An index beyond the machine range keeps its
/// exact value as a ghost (it is out of bounds of any array that exists).
enum ESeg {
    EName(String),
    EIndex(usize),
    EHuge(Ghost<nat>),
    EBad,
}

spec fn eseg_view(e: ESeg) -> LinkSeg {
    match e {
        ESeg::EName(s) => LinkSeg::SName(s@),
        ESeg::EIndex(i) => LinkSeg::SIndex(i as nat),
        ESeg::EHuge(g) => LinkSeg::SIndex(g@),
        ESeg::EBad => LinkSeg::SBad,
    }
}

spec fn eseg_wf(e: ESeg) -> bool {
    match e {
        ESeg::EHuge(g) => g@ > usize::MAX,
        _ => true,
    }
}

spec fn esegs_view(s: Seq<ESeg>) -> Seq<LinkSeg> {
    Seq::new(s.len(), |i: int| eseg_view(s[i]))
}

spec fn esegs_wf(s: Seq<ESeg>) -> bool {
    forall|i: int| 0 <= i < s.len() ==> eseg_wf(#[trigger] s[i])
}

/// Parse a link string like `$^^items[0].name` into its ups count and its
/// segments.
fn parse_link_string(s: &str) -> (r: (usize, Vec<ESeg>))
    ensures
        r.0 as nat == spec_link_ups(s@),
        esegs_view(r.1@) == spec_link_segs(s@),
        esegs_wf(r.1@),
{
    let cs = str_to_chars(s);
    let start: usize = if cs.len() > 0 && cs[0] == '$' {
        1
    } else {
        0
    };
    let mut i: usize = start;
    proof {
        lemma_count_ups_bound(cs@, start as int);
    }
    while i < cs.len() && cs[i] == '^'
        invariant
            start <= i <= cs@.len(),
            cs@ == s@,
            start == link_ups_start(cs@),
            spec_count_ups(cs@, start as int) == i - start + spec_count_ups(cs@, i as int),
        decreases cs@.len() - i,
    {
        i += 1;
    }
    let ups = i - start;
    proof {
        assert(spec_count_ups(cs@, i as int) == 0);
        assert(ups as nat == spec_link_ups(cs@));
    }
    let mut segs: Vec<ESeg> = Vec::new();
    let mut buf: Vec<char> = Vec::new();
    let ghost scan_target = spec_link_scan(cs@, i as int, Seq::empty());
    proof {
        assert(buf@ =~= Seq::<char>::empty());
        assert(esegs_view(segs@) =~= Seq::<LinkSeg>::empty());
    }
    while i < cs.len()
        invariant
            i <= cs@.len(),
            cs@ == s@,
            esegs_view(segs@) + spec_link_scan(cs@, i as int, buf@) == scan_target,
            esegs_wf(segs@),
        decreases cs@.len() - i,
    {
        let c = cs[i];
        let ghost old_i = i as int;
        let ghost bsegs0dot = segs@;
        let ghost bufv = buf@;
        let ghost flusheddot: Seq<LinkSeg> = if buf@.len() > 0 {
            seq![LinkSeg::SName(buf@)]
        } else {
            Seq::empty()
        };
        if c == '.' {
            if buf.len() > 0 {
                let nm = chars_to_string(&buf);
                let e = ESeg::EName(nm);
                let ghost ge = e;
                let ghost bsegs = segs@;
                segs.push(e);
                proof {
                    lemma_esegs_push(bsegs, ge);
                }
                buf = Vec::new();
            }
            i += 1;
            proof {
                assert(buf@ =~= Seq::<char>::empty());
                lemma_group2(
                    esegs_view(bsegs0dot),
                    flusheddot,
                    spec_link_scan(cs@, i as int, Seq::empty()),
                );
                assert(esegs_view(segs@) =~= esegs_view(bsegs0dot) + flusheddot);
                assert(esegs_view(segs@) + spec_link_scan(cs@, i as int, Seq::empty())
                    =~= scan_target);
            }
        } else if c == '[' {
            if buf.len() > 0 {
                let nm = chars_to_string(&buf);
                let e = ESeg::EName(nm);
                let ghost ge = e;
                let ghost bsegs = segs@;
                segs.push(e);
                proof {
                    lemma_esegs_push(bsegs, ge);
                }
                buf = Vec::new();
            }
            // read the index text up to `]` or the end
            let idx_start = i + 1;
            let mut j: usize = idx_start;
            while j < cs.len() && cs[j] != ']'
                invariant
                    idx_start <= j <= cs@.len(),
                    cs@ == s@,
                    forall|k: int| idx_start <= k < j ==> cs@[k] != ']',
                decreases cs@.len() - j,
            {
                j += 1;
            }
            proof {
                lemma_find_close_eq(cs@, idx_start as int, j as int);
            }
            // classify the index text
            let mut all_dig = j > idx_start;
            let mut value: usize = 0;
            let mut over = false;
            let mut k: usize = idx_start;
            while k < j
                invariant
                    idx_start <= k <= j <= cs@.len(),
                    cs@ == s@,
                    all_dig == (j > idx_start && (forall|t: int|
                        idx_start <= t < k ==> spec_is_digit(#[trigger] cs@[t]))),
                    all_dig && !over ==> value == spec_digits_val(
                        cs@.subrange(idx_start as int, k as int),
                    ),
                    all_dig && over ==> spec_digits_val(cs@.subrange(idx_start as int, k as int))
                        > usize::MAX,
                decreases j - k,
            {
                let c2 = cs[k];
                if !is_digit(c2) {
                    proof {
                        assert(!spec_is_digit(cs@[k as int]));
                    }
                    all_dig = false;
                } else if all_dig {
                    proof {
                        assert(spec_is_digit(cs@[k as int]));
                    }
                    let d = (c2 as u32 - 48) as usize;
                    proof {
                        let pre = cs@.subrange(idx_start as int, k as int);
                        let post = cs@.subrange(idx_start as int, k + 1);
                        assert(post.drop_last() =~= pre);
                        assert(spec_digits_val(post) == spec_digits_val(pre) * 10 + d);
                        if over {
                            assert(spec_digits_val(pre) * 10 > usize::MAX as int * 10)
                                by (nonlinear_arith)
                                requires spec_digits_val(pre) > usize::MAX as int;
                        }
                    }
                    if !over {
                        if value > (usize::MAX - d) / 10 {
                            over = true;
                            proof {
                                let pre = cs@.subrange(idx_start as int, k as int);
                                assert(value * 10 + d > usize::MAX) by (nonlinear_arith)
                                    requires
                                        value > (usize::MAX - d) / 10,
                                        d <= 9,
                                        value <= usize::MAX,
                                ;
                            }
                        } else {
                            proof {
                                assert(value * 10 + d <= usize::MAX) by (nonlinear_arith)
                                    requires
                                        value <= (usize::MAX - d) / 10,
                                        d <= 9,
                                ;
                            }
                            value = value * 10 + d;
                        }
                    }
                }
                k += 1;
            }
            let ghost idxtext = cs@.subrange(idx_start as int, j as int);
            proof {
                if all_dig {
                    assert forall|t: int| 0 <= t < idxtext.len() implies spec_is_digit(
                        #[trigger] idxtext[t],
                    ) by {
                        assert(idxtext[t] == cs@[idx_start + t]);
                    }
                    assert(spec_all_digits(idxtext));
                    assert(idxtext =~= cs@.subrange(idx_start as int, j as int));
                } else {
                    if j > idx_start && spec_all_digits(idxtext) {
                        assert forall|t: int| idx_start <= t < j implies spec_is_digit(
                            #[trigger] cs@[t],
                        ) by {
                            assert(cs@[t] == idxtext[t - idx_start]);
                        }
                        assert(false);
                    }
                    assert(!spec_all_digits(idxtext));
                }
            }
            let seg: ESeg = if all_dig && !over {
                ESeg::EIndex(value)
            } else if all_dig {
                // an index beyond the machine range is out of bounds of any
                // array that can exist
                ESeg::EHuge(Ghost(spec_digits_val(idxtext)))
            } else {
                ESeg::EBad
            };
            let ghost seg_g = seg;
            let ghost bsegs = segs@;
            segs.push(seg);
            proof {
                lemma_esegs_push(bsegs, seg_g);
            }
            // step past `]` if present
            if j < cs.len() {
                i = j + 1;
            } else {
                i = j;
            }
            proof {
                assert(buf@ =~= Seq::<char>::empty());
                crate::text::lemma_group3(
                    esegs_view(bsegs0dot),
                    flusheddot,
                    seq![eseg_view(seg_g)],
                    spec_link_scan(cs@, i as int, Seq::empty()),
                );
                assert(esegs_view(segs@) =~= esegs_view(bsegs0dot) + flusheddot + seq![
                    eseg_view(seg_g),
                ]);
                assert(spec_link_scan(cs@, old_i as int, bufv) == flusheddot + seq![
                    eseg_view(seg_g),
                ] + spec_link_scan(cs@, i as int, Seq::empty()));
                assert(esegs_view(segs@) + spec_link_scan(cs@, i as int, Seq::empty())
                    =~= scan_target);
            }
        } else {
            buf.push(c);
            i += 1;
            proof {
                assert(spec_link_scan(cs@, old_i, bufv) == spec_link_scan(cs@, i as int, buf@));
            }
        }
    }
    if buf.len() > 0 {
        let nm = chars_to_string(&buf);
        let e = ESeg::EName(nm);
        let ghost ge = e;
        let ghost bsegs = segs@;
        segs.push(e);
        proof {
            lemma_esegs_push(bsegs, ge);
        }
    }
    proof {
        assert(esegs_view(segs@) + Seq::<LinkSeg>::empty() =~= esegs_view(segs@));
        assert(esegs_view(segs@) =~= scan_target);
    }
    (ups, segs)
}

proof fn lemma_esegs_push(s: Seq<ESeg>, x: ESeg)
    ensures
        esegs_view(s.push(x)) =~= esegs_view(s) + seq![eseg_view(x)],
{
}

proof fn lemma_count_ups_bound(s: Seq<char>, i: int)
    requires
        0 <= i <= s.len(),
    ensures
        spec_count_ups(s, i) <= s.len() - i,
    decreases s.len() - i,
{
    if i < s.len() && s[i] == '^' {
        lemma_count_ups_bound(s, i + 1);
    }
}

proof fn lemma_find_close_eq(s: Seq<char>, i: int, j: int)
    requires
        0 <= i <= j <= s.len(),
        forall|k: int| i <= k < j ==> s[k] != ']',
        j < s.len() ==> s[j] == ']',
    ensures
        spec_find_close(s, i) == j,
    decreases j - i,
{
    if i < j {
        lemma_find_close_eq(s, i + 1, j);
    }
}

/// Follow the parsed segments of a link from a start node.
fn follow_link(start: &MOTLYNode, segs: &Vec<ESeg>) -> (r: Option<String>)
    requires
        esegs_wf(segs@),
    ensures
        (r is None) == spec_follow_link(view_node(*start), esegs_view(segs@), 0),
{
    let mut cur: &MOTLYNode = start;
    let mut i: usize = 0;
    while i < segs.len()
        invariant
            i <= segs@.len(),
            esegs_wf(segs@),
            spec_follow_link(view_node(*start), esegs_view(segs@), 0) == spec_follow_link(
                view_node(*cur),
                esegs_view(segs@),
                i as int,
            ),
        decreases segs@.len() - i,
    {
        proof {
            assert(esegs_view(segs@)[i as int] == eseg_view(segs@[i as int]));
        }
        match &segs[i] {
            ESeg::EName(nm) => {
                let child = match &cur.properties {
                    Option::Some(ps) => props_get(ps, nm.as_str()),
                    Option::None => Option::None,
                };
                match child {
                    Option::Some(pv) => match pv.as_node() {
                        Option::Some(c) => {
                            cur = c;
                        },
                        Option::None => {
                            // a link: resolved only if this was the last segment
                            if i + 1 == segs.len() {
                                return Option::None;
                            }
                            return Option::Some(
                                "could not be resolved: cannot follow path through a link".to_owned(),
                            );
                        },
                    },
                    Option::None => {
                        let mut m: Vec<char> = Vec::new();
                        crate::json::push_str(&mut m, "could not be resolved: property \"");
                        crate::json::push_str(&mut m, nm.as_str());
                        crate::json::push_str(&mut m, "\" not found");
                        return Option::Some(chars_to_string(&m));
                    },
                }
            },
            ESeg::EIndex(ix) => {
                match &cur.eq {
                    Option::Some(EqValue::Array(arr)) => {
                        proof {
                            lemma_view_pvs_index(arr@);
                        }
                        if *ix >= arr.len() {
                            let mut m: Vec<char> = Vec::new();
                            crate::json::push_str(&mut m, "could not be resolved: index [");
                            write_u64_dec(&mut m, *ix as u64);
                            crate::json::push_str(&mut m, "] out of bounds (array length ");
                            write_u64_dec(&mut m, arr.len() as u64);
                            crate::json::push_str(&mut m, ")");
                            return Option::Some(chars_to_string(&m));
                        }
                        match arr[*ix].as_node() {
                            Option::Some(c) => {
                                cur = c;
                            },
                            Option::None => {
                                if i + 1 == segs.len() {
                                    return Option::None;
                                }
                                return Option::Some(
                                    "could not be resolved: cannot follow path through a link".to_owned(),
                                );
                            },
                        }
                    },
                    _ => {
                        let mut m: Vec<char> = Vec::new();
                        crate::json::push_str(&mut m, "could not be resolved: index [");
                        write_u64_dec(&mut m, *ix as u64);
                        crate::json::push_str(&mut m, "] used on non-array");
                        return Option::Some(chars_to_string(&m));
                    },
                }
            },
            ESeg::EHuge(g) => {
                proof {
                    assert(eseg_wf(segs@[i as int]));
                }
                match &cur.eq {
                    Option::Some(EqValue::Array(arr)) => {
                        proof {
                            vstd::std_specs::vec::axiom_spec_len(arr);
                            lemma_view_pvs_index(arr@);
                            assert(g@ >= view_pvs(arr@).len());
                        }
                        return Option::Some(
                            "could not be resolved: index out of bounds".to_owned(),
                        );
                    },
                    _ => {
                        return Option::Some(
                            "could not be resolved: index used on non-array".to_owned(),
                        );
                    },
                }
            },
            ESeg::EBad => {
                return Option::Some("could not be resolved: invalid array index".to_owned());
            },
        }
        i += 1;
    }
    Option::None
}

/// Check one link against the ancestor stack; mirrors the resolution rule
/// exactly.
fn check_link(link: &str, ancestors: &Vec<&MOTLYNode>, root: &MOTLYNode) -> (r: Option<String>)
    ensures
        (r is None) == spec_link_ok(view_node(*root), views_of(ancestors@), link@),
{
    let (ups, segs) = parse_link_string(link);
    if ups == 0 {
        follow_link(root, &segs)
    } else if ups <= ancestors.len() {
        let start = ancestors[ancestors.len() - ups];
        proof {
            assert(views_of(ancestors@)[ancestors@.len() - ups] == view_node(
                *ancestors@[ancestors@.len() - ups as int],
            ));
        }
        follow_link(start, &segs)
    } else {
        let mut m: Vec<char> = Vec::new();
        crate::json::push_str(&mut m, "goes ");
        crate::text::write_u64_dec(&mut m, ups as u64);
        crate::json::push_str(&mut m, " level(s) up but only ");
        crate::text::write_u64_dec(&mut m, ancestors.len() as u64);
        crate::json::push_str(&mut m, " ancestor(s) available");
        Option::Some(chars_to_string(&m))
    }
}

/// Append an unresolved-reference error at the given path, with the
/// cause spelled out.
fn push_unresolved(errors: &mut Vec<ValidationError>, link: &str, cause: &str, path: &Vec<String>)
    ensures
        final(errors)@.len() == old(errors)@.len() + 1,
        final(errors)@.subrange(0, old(errors)@.len() as int) == old(errors)@,
        final(errors)@.last().code@ == "unresolved-reference"@,
        path_views(final(errors)@.last().path@) == path_views(path@),
{
    let mut msg: Vec<char> = Vec::new();
    crate::json::push_str(&mut msg, "Reference \"");
    crate::json::push_str(&mut msg, link);
    crate::json::push_str(&mut msg, "\" ");
    crate::json::push_str(&mut msg, cause);
    let mut p: Vec<String> = Vec::new();
    let mut i: usize = 0;
    while i < path.len()
        invariant
            i <= path@.len(),
            p@.len() == i,
            forall|k: int| 0 <= k < i ==> #[trigger] p@[k]@ == path@[k]@,
        decreases path@.len() - i,
    {
        p.push(path[i].clone());
        i += 1;
    }
    errors.push(
        ValidationError {
            message: chars_to_string(&msg),
            path: p,
            code: "unresolved-reference".to_owned(),
        },
    );
    proof {
        assert(errors@.subrange(0, old(errors)@.len() as int) =~= old(errors)@);
        assert(path_views(errors@.last().path@) =~= path_views(path@));
    }
}

/// Walk every property value; collect an error for every link that does
/// not resolve. Returns with no new errors exactly when every link under
/// this value resolves.
#[verifier::loop_isolation(false)]
fn walk_refs_pv<'a>(
    pv: &'a MOTLYPropertyValue,
    path: &mut Vec<String>,
    ancestors: &mut Vec<&'a MOTLYNode>,
    parent: &'a MOTLYNode,
    root: &'a MOTLYNode,
    errors: &mut Vec<ValidationError>,
) -> (done: bool)
    ensures
        final(path)@ == old(path)@,
        final(ancestors)@ == old(ancestors)@,
        final(errors)@.len() >= old(errors)@.len(),
        (final(errors)@.len() == old(errors)@.len()) == spec_refs_ok_pv(
            view_pv(*pv),
            views_of(old(ancestors)@),
            view_node(*parent),
            view_node(*root),
        ),
        final(errors)@.subrange(0, old(errors)@.len() as int) == old(errors)@,
        forall|i: int|
            old(errors)@.len() <= i < final(errors)@.len() ==> (#[trigger] final(errors)@[i]).code@
                == "unresolved-reference"@,
        verr_paths(final(errors)@) == verr_paths(old(errors)@) + spec_ref_errs_pv(
            view_pv(*pv),
            views_of(old(ancestors)@),
            view_node(*parent),
            view_node(*root),
            path_views(old(path)@),
        ),
        done,
    decreases *pv, 1nat,
{
    match pv {
        MOTLYPropertyValue::Ref(link) => {
            match check_link(link.as_str(), ancestors, root) {
                Option::Some(cause) => {
                    push_unresolved(errors, link.as_str(), cause.as_str(), path);
                    proof {
                        assert(verr_paths(errors@) =~= verr_paths(old(errors)@) + seq![
                            path_views(old(path)@),
                        ]) by {
                            assert forall|k: int| 0 <= k < old(errors)@.len() implies errors@[k]
                                == old(errors)@[k] by {
                                assert(errors@.subrange(0, old(errors)@.len() as int)[k]
                                    == errors@[k]);
                            }
                        }
                    }
                },
                Option::None => {
                    proof {
                        lemma_cat_empty(verr_paths(errors@));
                        assert(errors@.subrange(0, old(errors)@.len() as int) =~= old(errors)@);
                    }
                },
            }
            true
        },
        MOTLYPropertyValue::Node(child) => {
            ancestors.push(parent);
            proof {
                assert(views_of(ancestors@) =~= views_of(old(ancestors)@).push(
                    view_node(*parent),
                ));
            }
            let r = walk_refs_node(child, path, ancestors, root, errors);
            ancestors.pop();
            proof {
                assert(ancestors@ =~= old(ancestors)@);
            }
            r
        },
    }
}

/// Walk a node: its array elements, then its properties, in order.
#[verifier::loop_isolation(false)]
fn walk_refs_node<'a>(
    node: &'a MOTLYNode,
    path: &mut Vec<String>,
    ancestors: &mut Vec<&'a MOTLYNode>,
    root: &'a MOTLYNode,
    errors: &mut Vec<ValidationError>,
) -> (done: bool)
    ensures
        final(path)@ == old(path)@,
        final(ancestors)@ == old(ancestors)@,
        final(errors)@.len() >= old(errors)@.len(),
        (final(errors)@.len() == old(errors)@.len()) == spec_refs_ok_node(
            view_node(*node),
            views_of(old(ancestors)@),
            view_node(*root),
        ),
        final(errors)@.subrange(0, old(errors)@.len() as int) == old(errors)@,
        forall|i: int|
            old(errors)@.len() <= i < final(errors)@.len() ==> (#[trigger] final(errors)@[i]).code@
                == "unresolved-reference"@,
        verr_paths(final(errors)@) == verr_paths(old(errors)@) + spec_ref_errs_node(
            view_node(*node),
            views_of(old(ancestors)@),
            view_node(*root),
            path_views(old(path)@),
        ),
        done,
    decreases *node, 2nat,
{
    let ghost anc0 = views_of(old(ancestors)@);
    let ghost nv = view_node(*node);
    let ghost rv = view_node(*root);
    let ghost e0 = old(errors)@;
    let ghost p0v = path_views(old(path)@);
    let mut ok = true;
    match &node.eq {
        Option::Some(EqValue::Array(arr)) => {
            proof {
                lemma_view_pvs_index(arr@);
            }
            let ghost av = view_pvs(arr@);
            let mut i: usize = 0;
            while i < arr.len()
                invariant
                    i <= arr@.len(),
                    path@ == old(path)@,
                    ancestors@ == old(ancestors)@,
                    errors@.len() >= old(errors)@.len(),
                    (errors@.len() == old(errors)@.len()) == spec_refs_ok_upto(
                        av,
                        i as int,
                        anc0,
                        nv,
                        view_node(*root),
                    ),
                    errors@.subrange(0, e0.len() as int) == e0,
                    forall|k: int|
                        e0.len() <= k < errors@.len() ==> (#[trigger] errors@[k]).code@
                            == "unresolved-reference"@,
                    verr_paths(errors@) + spec_ref_errs_pvs(av, i as int, anc0, nv, rv, p0v)
                        == verr_paths(e0) + spec_ref_errs_pvs(av, 0, anc0, nv, rv, p0v),
                decreases arr@.len() - i,
            {
                proof {
                    assert(decreases_to!(*node => *arr));
                    assert(decreases_to!(*arr => arr@));
                    assert(decreases_to!(arr@ => arr@[i as int]));
                }
                let ghost pre_len = errors@.len();
                let ghost pre_errs = errors@;
                let mut idx_text: Vec<char> = Vec::new();
                idx_text.push('[');
                write_u64_dec(&mut idx_text, i as u64);
                idx_text.push(']');
                proof {
                    assert(idx_text@ =~= idx_seg(i as int));
                }
                path.push(chars_to_string(&idx_text));
                proof {
                    assert(path_views(path@) =~= p0v.push(idx_seg(i as int)));
                }
                let _ = walk_refs_pv(&arr[i], path, ancestors, node, root, errors);
                path.pop();
                proof {
                    assert(path@ =~= old(path)@);
                    lemma_refs_ok_upto_step(av, i as int, anc0, nv, view_node(*root));
                    let ei = spec_ref_errs_pv(av[i as int], anc0, nv, rv, p0v.push(
                        idx_seg(i as int),
                    ));
                    let rest = spec_ref_errs_pvs(av, i + 1, anc0, nv, rv, p0v);
                    assert(spec_ref_errs_pvs(av, i as int, anc0, nv, rv, p0v) == ei + rest);
                    lemma_group2(verr_paths(pre_errs), ei, rest);
                    lemma_group2(verr_paths(e0), spec_ref_errs_pvs(av, 0, anc0, nv, rv, p0v), Seq::empty());
                    assert(errors@.subrange(0, e0.len() as int) =~= e0) by {
                        assert forall|k: int| 0 <= k < e0.len() implies errors@[k] == e0[k] by {
                            assert(errors@.subrange(0, pre_len as int)[k] == errors@[k]);
                            assert(pre_errs.subrange(0, e0.len() as int)[k] == pre_errs[k]);
                        }
                    }
                    assert forall|k: int| e0.len() <= k < errors@.len() implies (
                    #[trigger] errors@[k]).code@ == "unresolved-reference"@ by {
                        if k < pre_len {
                            assert(errors@.subrange(0, pre_len as int)[k] == errors@[k]);
                            assert(errors@[k] == pre_errs[k]);
                        }
                    }
                }
                i += 1;
            }
            proof {
                lemma_refs_ok_upto_all(av, anc0, nv, view_node(*root));
                lemma_cat_empty(verr_paths(errors@));
            }
        },
        _ => {
            proof {
                assert(spec_refs_ok_upto(
                    Seq::<PropVal>::empty(),
                    0,
                    anc0,
                    nv,
                    view_node(*root),
                ));
            }
        },
    }
    let ghost len_after_eq = errors@.len();
    let ghost errs_after_eq = errors@;
    let ghost eq_part = (match nv.eq {
        Option::Some(EqVal::Array(a)) => spec_ref_errs_pvs(a, 0, anc0, nv, rv, p0v),
        _ => Seq::<Seq<Seq<char>>>::empty(),
    });
    proof {
        lemma_cat_empty(verr_paths(e0));
        assert(verr_paths(errors@) == verr_paths(e0) + eq_part);
    }
    match &node.properties {
        Option::Some(ps) => {
            proof {
                lemma_view_props_index(ps@);
            }
            let ghost pw = view_props(ps@);
            let mut i: usize = 0;
            while i < ps.len()
                invariant
                    i <= ps@.len(),
                    path@ == old(path)@,
                    ancestors@ == old(ancestors)@,
                    errors@.len() >= len_after_eq,
                    (errors@.len() == len_after_eq) == spec_refs_ok_entries_upto(
                        pw,
                        i as int,
                        anc0,
                        nv,
                        view_node(*root),
                    ),
                    errors@.subrange(0, e0.len() as int) == e0,
                    forall|k: int|
                        e0.len() <= k < errors@.len() ==> (#[trigger] errors@[k]).code@
                            == "unresolved-reference"@,
                    verr_paths(errors@) + spec_ref_errs_entries(pw, i as int, anc0, nv, rv, p0v)
                        == verr_paths(errs_after_eq) + spec_ref_errs_entries(pw, 0, anc0, nv, rv, p0v),
                decreases ps@.len() - i,
            {
                proof {
                    assert(decreases_to!(*node => *ps));
                    assert(decreases_to!(*ps => ps@));
                    assert(decreases_to!(ps@ => ps@[i as int]));
                    assert(decreases_to!(ps@[i as int] => ps@[i as int].value));
                }
                let ghost pre_len = errors@.len();
                let ghost pre_errs = errors@;
                path.push(ps[i].name.clone());
                proof {
                    assert(path_views(path@) =~= p0v.push(pw[i as int].0));
                }
                let _ = walk_refs_pv(&ps[i].value, path, ancestors, node, root, errors);
                path.pop();
                proof {
                    assert(path@ =~= old(path)@);
                    lemma_refs_ok_entries_upto_step(pw, i as int, anc0, nv, view_node(*root));
                    let ei = spec_ref_errs_pv(pw[i as int].1, anc0, nv, rv, p0v.push(
                        pw[i as int].0,
                    ));
                    let rest = spec_ref_errs_entries(pw, i + 1, anc0, nv, rv, p0v);
                    assert(spec_ref_errs_entries(pw, i as int, anc0, nv, rv, p0v) == ei + rest);
                    lemma_group2(verr_paths(pre_errs), ei, rest);
                    assert(errors@.subrange(0, e0.len() as int) =~= e0) by {
                        assert forall|k: int| 0 <= k < e0.len() implies errors@[k] == e0[k] by {
                            assert(errors@.subrange(0, pre_len as int)[k] == errors@[k]);
                            assert(pre_errs.subrange(0, e0.len() as int)[k] == pre_errs[k]);
                        }
                    }
                    assert forall|k: int| e0.len() <= k < errors@.len() implies (
                    #[trigger] errors@[k]).code@ == "unresolved-reference"@ by {
                        if k < pre_len {
                            assert(errors@.subrange(0, pre_len as int)[k] == errors@[k]);
                            assert(errors@[k] == pre_errs[k]);
                        }
                    }
                }
                i += 1;
            }
            proof {
                lemma_refs_ok_entries_upto_all(pw, anc0, nv, view_node(*root));
                lemma_cat_empty(verr_paths(errors@));
            }
        },
        Option::None => {},
    }
    proof {
        let props_part = (match nv.properties {
            Option::Some(psv) => spec_ref_errs_entries(psv, 0, anc0, nv, rv, p0v),
            Option::None => Seq::<Seq<Seq<char>>>::empty(),
        });
        lemma_cat_empty(verr_paths(errs_after_eq));
        assert(verr_paths(errors@) == verr_paths(errs_after_eq) + props_part);
        lemma_group2(verr_paths(e0), eq_part, props_part);
        assert(spec_ref_errs_node(nv, anc0, rv, p0v) == eq_part + props_part);
    }
    true
}

/// Links in the first `i` elements all resolve.
spec fn spec_refs_ok_upto(
    a: Seq<PropVal>,
    i: int,
    anc: Seq<NodeVal>,
    parent: NodeVal,
    root: NodeVal,
) -> bool {
    forall|k: int| 0 <= k < i && k < a.len() ==> spec_refs_ok_pv(#[trigger] a[k], anc, parent, root)
}

proof fn lemma_refs_ok_upto_step(
    a: Seq<PropVal>,
    i: int,
    anc: Seq<NodeVal>,
    parent: NodeVal,
    root: NodeVal,
)
    requires
        0 <= i < a.len(),
    ensures
        spec_refs_ok_upto(a, i + 1, anc, parent, root) == (spec_refs_ok_upto(a, i, anc, parent, root)
            && spec_refs_ok_pv(a[i], anc, parent, root)),
{
}

proof fn lemma_refs_ok_upto_all(a: Seq<PropVal>, anc: Seq<NodeVal>, parent: NodeVal, root: NodeVal)
    ensures
        spec_refs_ok_upto(a, a.len() as int, anc, parent, root) == spec_refs_ok_pvs(
            a,
            0,
            anc,
            parent,
            root,
        ),
{
    lemma_refs_ok_pvs_iff(a, 0, anc, parent, root);
}

proof fn lemma_refs_ok_pvs_iff(
    a: Seq<PropVal>,
    i: int,
    anc: Seq<NodeVal>,
    parent: NodeVal,
    root: NodeVal,
)
    requires
        0 <= i <= a.len(),
    ensures
        spec_refs_ok_pvs(a, i, anc, parent, root) == (forall|k: int|
            i <= k < a.len() ==> spec_refs_ok_pv(#[trigger] a[k], anc, parent, root)),
    decreases a.len() - i,
{
    if i < a.len() {
        lemma_refs_ok_pvs_iff(a, i + 1, anc, parent, root);
    }
}

spec fn spec_refs_ok_entries_upto(
    ps: Seq<(Seq<char>, PropVal)>,
    i: int,
    anc: Seq<NodeVal>,
    parent: NodeVal,
    root: NodeVal,
) -> bool {
    forall|k: int|
        0 <= k < i && k < ps.len() ==> spec_refs_ok_pv(#[trigger] ps[k].1, anc, parent, root)
}

proof fn lemma_refs_ok_entries_upto_step(
    ps: Seq<(Seq<char>, PropVal)>,
    i: int,
    anc: Seq<NodeVal>,
    parent: NodeVal,
    root: NodeVal,
)
    requires
        0 <= i < ps.len(),
    ensures
        spec_refs_ok_entries_upto(ps, i + 1, anc, parent, root) == (spec_refs_ok_entries_upto(
            ps,
            i,
            anc,
            parent,
            root,
        ) && spec_refs_ok_pv(ps[i].1, anc, parent, root)),
{
}

proof fn lemma_refs_ok_entries_upto_all(
    ps: Seq<(Seq<char>, PropVal)>,
    anc: Seq<NodeVal>,
    parent: NodeVal,
    root: NodeVal,
)
    ensures
        spec_refs_ok_entries_upto(ps, ps.len() as int, anc, parent, root)
            == spec_refs_ok_entries(ps, 0, anc, parent, root),
{
    lemma_refs_ok_entries_iff(ps, 0, anc, parent, root);
}

proof fn lemma_refs_ok_entries_iff(
    ps: Seq<(Seq<char>, PropVal)>,
    i: int,
    anc: Seq<NodeVal>,
    parent: NodeVal,
    root: NodeVal,
)
    requires
        0 <= i <= ps.len(),
    ensures
        spec_refs_ok_entries(ps, i, anc, parent, root) == (forall|k: int|
            i <= k < ps.len() ==> spec_refs_ok_pv(#[trigger] ps[k].1, anc, parent, root)),
    decreases ps.len() - i,
{
    if i < ps.len() {
        lemma_refs_ok_entries_iff(ps, i + 1, anc, parent, root);
    }
}

// ---- Schema validation: the specification ------------------------------------

/// Whether a regular expression pattern compiles. Named after
/// regex::Regex::new, whose outcome depends on the pattern alone.
pub uninterp spec fn regex_compiles(pattern: Seq<char>) -> bool;

/// Whether a compiled pattern matches a text. Named after
/// regex::Regex::is_match, whose outcome depends on the two strings alone.
pub uninterp spec fn regex_accepts(pattern: Seq<char>, text: Seq<char>) -> bool;

/// The eq slot of a node when it is a string.
pub open spec fn spec_eq_string(n: NodeVal) -> Option<Seq<char>> {
    match n.eq {
        Option::Some(EqVal::Scalar(ScalarVal::Str(s))) => Option::Some(s),
        _ => Option::None,
    }
}

/// A named section of a schema node: the property map of `node.name`.
pub open spec fn spec_section(n: NodeVal, name: Seq<char>) -> Option<Seq<(Seq<char>, PropVal)>> {
    match node_get(n, name) {
        Option::Some(PropVal::Node(c)) => c.properties,
        _ => Option::None,
    }
}

/// The policy for unknown keys.
pub ghost enum APolicy {
    Reject,
    Allow,
    ValidateAs(Seq<char>),
}

pub open spec fn spec_additional(schema: NodeVal) -> APolicy {
    match node_get(schema, "Additional"@) {
        Option::Some(PropVal::Node(c)) => match spec_eq_string(c) {
            Option::Some(s) => if s == "allow"@ {
                APolicy::Allow
            } else if s == "reject"@ {
                APolicy::Reject
            } else {
                APolicy::ValidateAs(s)
            },
            Option::None => APolicy::Allow,
        },
        _ => APolicy::Reject,
    }
}

/// The synthetic type spec for a bare type name.
pub open spec fn spec_synth(name: Seq<char>) -> PropVal {
    PropVal::Node(
        NodeVal {
            eq: Option::Some(EqVal::Scalar(ScalarVal::Str(name))),
            properties: Option::None,
            deleted: false,
        },
    )
}

/// One named-type expansion budget: enough for any chain of distinct named
/// types, reset whenever validation descends into a smaller value.
pub open spec fn spec_fresh_fuel(types: Option<Seq<(Seq<char>, PropVal)>>) -> nat {
    match types {
        Option::Some(t) => if t.len() < usize::MAX as nat {
            t.len() + 1
        } else {
            t.len()
        },
        Option::None => 1,
    }
}

// Sizes of views: the termination measure of the schema walk.

pub open spec fn vpv_size(p: PropVal) -> nat
    decreases p,
{
    match p {
        PropVal::Node(n) => 1 + vnode_size(n),
        PropVal::Ref(_) => 1,
    }
}

pub open spec fn vpvs_size(a: Seq<PropVal>) -> nat
    decreases a,
{
    if a.len() == 0 {
        0
    } else {
        1 + vpv_size(a[0]) + vpvs_size(a.subrange(1, a.len() as int))
    }
}

pub open spec fn ventries_size(ps: Seq<(Seq<char>, PropVal)>) -> nat
    decreases ps,
{
    if ps.len() == 0 {
        0
    } else {
        1 + vpv_size(ps[0].1) + ventries_size(ps.subrange(1, ps.len() as int))
    }
}

pub open spec fn vnode_size(n: NodeVal) -> nat
    decreases n,
{
    1 + (match n.eq {
        Option::Some(EqVal::Array(a)) => vpvs_size(a),
        _ => 0,
    }) + (match n.properties {
        Option::Some(ps) => ventries_size(ps),
        Option::None => 0,
    })
}

pub proof fn lemma_vpvs_size_elem(a: Seq<PropVal>, j: int)
    requires
        0 <= j < a.len(),
    ensures
        vpv_size(a[j]) < vpvs_size(a),
    decreases a.len(),
{
    if j > 0 {
        lemma_vpvs_size_elem(a.subrange(1, a.len() as int), j - 1);
        assert(a.subrange(1, a.len() as int)[j - 1] == a[j]);
    }
}

pub proof fn lemma_ventries_size_elem(ps: Seq<(Seq<char>, PropVal)>, j: int)
    requires
        0 <= j < ps.len(),
    ensures
        vpv_size(ps[j].1) < ventries_size(ps),
    decreases ps.len(),
{
    if j > 0 {
        lemma_ventries_size_elem(ps.subrange(1, ps.len() as int), j - 1);
        assert(ps.subrange(1, ps.len() as int)[j - 1] == ps[j]);
    }
}

/// A looked-up property is smaller than its node.
pub proof fn lemma_node_get_size(n: NodeVal, k: Seq<char>)
    requires
        node_get(n, k) is Some,
    ensures
        vpv_size(match node_get(n, k) {
            Option::Some(v) => v,
            Option::None => PropVal::Ref(Seq::empty()),
        }) < vnode_size(n),
{
    match n.properties {
        Option::Some(ps) => {
            crate::tree::lemma_vprops_find_properties(ps, k, 0);
            let f = vprops_find(ps, k);
            lemma_ventries_size_elem(ps, f);
        },
        Option::None => {},
    }
}

/// The error codes of validating one value against a type spec.
pub open spec fn spec_vvalue(
    value: PropVal,
    tspec: PropVal,
    types: Option<Seq<(Seq<char>, PropVal)>>,
    fuel: nat,
    p: Seq<Seq<char>>,
) -> Seq<SErr>
    decreases vpv_size(value), fuel, 4nat, 0nat,
{
    match tspec {
        PropVal::Ref(_) => Seq::empty(),
        PropVal::Node(sn) => {
            match node_get(sn, "oneOf"@) {
                Option::Some(PropVal::Node(one)) => {
                    match one.eq {
                        Option::Some(EqVal::Array(members)) => {
                            if spec_vunion(value, members, types, fuel, p) {
                                Seq::empty()
                            } else {
                                serr1("wrong-type"@, p)
                            }
                        },
                        _ => Seq::empty(),
                    }
                },
                _ => {
                    match spec_enum_members(sn) {
                        Option::Some(allowed) => spec_venum(value, allowed, p),
                        Option::None => {
                            match node_get(sn, "matches"@) {
                                Option::Some(PropVal::Node(mnode)) => {
                                    (match spec_eq_string(sn) {
                                        Option::Some(base) => spec_vbase(
                                            value,
                                            base,
                                            types,
                                            fuel,
                                            p,
                                        ),
                                        Option::None => Seq::empty(),
                                    }) + spec_vpattern(value, mnode, p)
                                },
                                _ => {
                                    match spec_eq_string(sn) {
                                        Option::Some(tn) => spec_vbase(value, tn, types, fuel, p),
                                        Option::None => {
                                            if node_get(sn, "Required"@) is Some || node_get(
                                                sn,
                                                "Optional"@,
                                            ) is Some || node_get(sn, "Additional"@) is Some {
                                                match value {
                                                    PropVal::Node(t) => spec_vnode(
                                                        t,
                                                        sn,
                                                        types,
                                                        fuel,
                                                        p,
                                                    ),
                                                    PropVal::Ref(_) => serr1("wrong-type"@, p),
                                                }
                                            } else {
                                                Seq::empty()
                                            }
                                        },
                                    }
                                },
                            }
                        },
                    }
                },
            }
        },
    }
}

/// The enum member list of a type spec: the array in the eq of its `eq`
/// property, if that shape is present.
pub open spec fn spec_enum_members(sn: NodeVal) -> Option<Seq<PropVal>> {
    match node_get(sn, "eq"@) {
        Option::Some(PropVal::Node(en)) => match en.eq {
            Option::Some(EqVal::Array(a)) => Option::Some(a),
            _ => Option::None,
        },
        _ => Option::None,
    }
}

/// Whether some member of a oneOf union accepts the value.
pub open spec fn spec_vunion(
    value: PropVal,
    members: Seq<PropVal>,
    types: Option<Seq<(Seq<char>, PropVal)>>,
    fuel: nat,
    p: Seq<Seq<char>>,
) -> bool
    decreases vpv_size(value), fuel, 3nat, members.len(),
{
    if members.len() == 0 {
        false
    } else {
        let head_ok = match spec_pv_eq_string(members[0]) {
            Option::Some(tn) => if fuel > 0 {
                spec_vvalue(value, spec_synth(tn), types, (fuel - 1) as nat, p).len() == 0
            } else {
                false
            },
            Option::None => false,
        };
        head_ok || spec_vunion(value, members.subrange(1, members.len() as int), types, fuel, p)
    }
}

/// The eq string of a property value that is a node.
pub open spec fn spec_pv_eq_string(pv: PropVal) -> Option<Seq<char>> {
    match pv {
        PropVal::Node(n) => spec_eq_string(n),
        PropVal::Ref(_) => Option::None,
    }
}

/// Enum validation: the value's eq must be a scalar equal to some member's
/// scalar.
pub open spec fn spec_venum(value: PropVal, allowed: Seq<PropVal>, p: Seq<Seq<char>>) -> Seq<SErr> {
    match value {
        PropVal::Ref(_) => serr1("wrong-type"@, p),
        PropVal::Node(n) => match n.eq {
            Option::Some(EqVal::Scalar(s)) => if spec_enum_has(allowed, s) {
                Seq::empty()
            } else {
                serr1("invalid-enum-value"@, p)
            },
            _ => serr1("invalid-enum-value"@, p),
        },
    }
}

pub open spec fn spec_enum_has(allowed: Seq<PropVal>, s: ScalarVal) -> bool {
    exists|i: int|
        0 <= i < allowed.len() && (match #[trigger] allowed[i] {
            PropVal::Node(m) => m.eq == Option::Some(EqVal::Scalar(s)),
            PropVal::Ref(_) => false,
        })
}

/// Pattern validation against a `matches` node.
pub open spec fn spec_vpattern(value: PropVal, mnode: NodeVal, p: Seq<Seq<char>>) -> Seq<SErr> {
    match spec_eq_string(mnode) {
        Option::None => Seq::empty(),
        Option::Some(pat) => match value {
            PropVal::Ref(_) => serr1("wrong-type"@, p),
            PropVal::Node(n) => match spec_eq_string(n) {
                Option::Some(text) => if !regex_compiles(pat) {
                    serr1("invalid-schema"@, p)
                } else if regex_accepts(pat, text) {
                    Seq::empty()
                } else {
                    serr1("pattern-mismatch"@, p)
                },
                Option::None => serr1("pattern-mismatch"@, p),
            },
        },
    }
}

/// Base type validation: `T[]` array types, the built-in names, or a named
/// type from the root `Types` section.
pub open spec fn spec_vbase(
    value: PropVal,
    name: Seq<char>,
    types: Option<Seq<(Seq<char>, PropVal)>>,
    fuel: nat,
    p: Seq<Seq<char>>,
) -> Seq<SErr>
    decreases vpv_size(value), fuel, 2nat, 0nat,
{
    if name.len() >= 2 && name[name.len() - 2] == '[' && name[name.len() - 1] == ']' {
        let inner = name.subrange(0, name.len() - 2);
        match value {
            PropVal::Ref(_) => serr1("wrong-type"@, p),
            PropVal::Node(n) => match n.eq {
                Option::Some(EqVal::Array(a)) => spec_velems(a, inner, types, p, 0),
                _ => serr1("wrong-type"@, p),
            },
        }
    } else if name == "string"@ {
        spec_vscalar_shape(value, 0, p)
    } else if name == "number"@ {
        spec_vscalar_shape(value, 1, p)
    } else if name == "boolean"@ {
        spec_vscalar_shape(value, 2, p)
    } else if name == "date"@ {
        spec_vscalar_shape(value, 3, p)
    } else if name == "tag"@ || name == "flag"@ {
        match value {
            PropVal::Node(_) => Seq::empty(),
            PropVal::Ref(_) => serr1("wrong-type"@, p),
        }
    } else if name == "any"@ {
        Seq::empty()
    } else {
        match types {
            Option::Some(tm) => {
                if vprops_find(tm, name) >= 0 {
                    if fuel > 0 {
                        match vprops_get(tm, name) {
                            Option::Some(def) => spec_vvalue(value, def, types, (fuel - 1) as nat, p),
                            Option::None => Seq::empty(),
                        }
                    } else {
                        serr1("invalid-schema"@, p)
                    }
                } else {
                    serr1("invalid-schema"@, p)
                }
            },
            Option::None => serr1("invalid-schema"@, p),
        }
    }
}

/// Shape check of a scalar kind: 0 string, 1 number, 2 boolean, 3 date.
pub open spec fn spec_vscalar_shape(value: PropVal, kind: int, p: Seq<Seq<char>>) -> Seq<SErr> {
    match value {
        PropVal::Ref(_) => serr1("wrong-type"@, p),
        PropVal::Node(n) => match n.eq {
            Option::Some(EqVal::Scalar(s)) => {
                let ok = match s {
                    ScalarVal::Str(_) => kind == 0,
                    ScalarVal::Num(_) => kind == 1,
                    ScalarVal::Bool(_) => kind == 2,
                    ScalarVal::Date(_) => kind == 3,
                };
                if ok {
                    Seq::empty()
                } else {
                    serr1("wrong-type"@, p)
                }
            },
            _ => serr1("wrong-type"@, p),
        },
    }
}

/// Every element of an array value against the inner type, in order, each
/// with a fresh expansion budget.
pub open spec fn spec_velems(
    a: Seq<PropVal>,
    inner: Seq<char>,
    types: Option<Seq<(Seq<char>, PropVal)>>,
    p: Seq<Seq<char>>,
    base: int,
) -> Seq<SErr>
    decreases vpvs_size(a), 0nat, 3nat, 0nat,
{
    if a.len() == 0 {
        Seq::empty()
    } else {
        spec_vbase(a[0], inner, types, spec_fresh_fuel(types), p.push(idx_seg(base))) + spec_velems(
            a.subrange(1, a.len() as int),
            inner,
            types,
            p,
            base + 1,
        )
    }
}

/// Required entries: a missing key is an error, a present one is validated
/// against its type spec.
pub open spec fn spec_check_req(
    entries: Seq<(Seq<char>, PropVal)>,
    tag: NodeVal,
    types: Option<Seq<(Seq<char>, PropVal)>>,
    p: Seq<Seq<char>>,
) -> Seq<SErr>
    decreases vnode_size(tag), 0nat, 5nat, entries.len(),
    via spec_check_req_dec
{
    if entries.len() == 0 {
        Seq::empty()
    } else {
        let errs = match node_get(tag, entries[0].0) {
            Option::None => serr1("missing-required"@, p.push(entries[0].0)),
            Option::Some(v) => spec_vvalue(v, entries[0].1, types, spec_fresh_fuel(types), p.push(
                entries[0].0,
            )),
        };
        errs + spec_check_req(entries.subrange(1, entries.len() as int), tag, types, p)
    }
}

#[via_fn]
proof fn spec_check_req_dec(
    entries: Seq<(Seq<char>, PropVal)>,
    tag: NodeVal,
    types: Option<Seq<(Seq<char>, PropVal)>>,
    p: Seq<Seq<char>>,
) {
    if entries.len() > 0 {
        if node_get(tag, entries[0].0) is Some {
            lemma_node_get_size(tag, entries[0].0);
        }
    }
}

/// Optional entries: validated only when present.
pub open spec fn spec_check_opt(
    entries: Seq<(Seq<char>, PropVal)>,
    tag: NodeVal,
    types: Option<Seq<(Seq<char>, PropVal)>>,
    p: Seq<Seq<char>>,
) -> Seq<SErr>
    decreases vnode_size(tag), 0nat, 5nat, entries.len(),
    via spec_check_opt_dec
{
    if entries.len() == 0 {
        Seq::empty()
    } else {
        let errs = match node_get(tag, entries[0].0) {
            Option::None => Seq::<SErr>::empty(),
            Option::Some(v) => spec_vvalue(v, entries[0].1, types, spec_fresh_fuel(types), p.push(
                entries[0].0,
            )),
        };
        errs + spec_check_opt(entries.subrange(1, entries.len() as int), tag, types, p)
    }
}

#[via_fn]
proof fn spec_check_opt_dec(
    entries: Seq<(Seq<char>, PropVal)>,
    tag: NodeVal,
    types: Option<Seq<(Seq<char>, PropVal)>>,
    p: Seq<Seq<char>>,
) {
    if entries.len() > 0 {
        if node_get(tag, entries[0].0) is Some {
            lemma_node_get_size(tag, entries[0].0);
        }
    }
}

/// Whether a key is declared in the Required or Optional section.
pub open spec fn spec_known_key(
    req: Option<Seq<(Seq<char>, PropVal)>>,
    opt: Option<Seq<(Seq<char>, PropVal)>>,
    k: Seq<char>,
) -> bool {
    (match req {
        Option::Some(r) => vprops_find(r, k) >= 0,
        Option::None => false,
    }) || (match opt {
        Option::Some(o) => vprops_find(o, k) >= 0,
        Option::None => false,
    })
}

/// Unknown keys of the tag, handled per the Additional policy.
pub open spec fn spec_check_unknown(
    tag_entries: Seq<(Seq<char>, PropVal)>,
    req: Option<Seq<(Seq<char>, PropVal)>>,
    opt: Option<Seq<(Seq<char>, PropVal)>>,
    add: APolicy,
    types: Option<Seq<(Seq<char>, PropVal)>>,
    p: Seq<Seq<char>>,
) -> Seq<SErr>
    decreases ventries_size(tag_entries), 0nat, 5nat, 0nat,
{
    if tag_entries.len() == 0 {
        Seq::empty()
    } else {
        let k = tag_entries[0].0;
        let errs: Seq<SErr> = if spec_known_key(req, opt, k) {
            Seq::empty()
        } else {
            match add {
                APolicy::Reject => serr1("unknown-property"@, p.push(k)),
                APolicy::Allow => Seq::empty(),
                APolicy::ValidateAs(tn) => spec_vvalue(
                    tag_entries[0].1,
                    spec_synth(tn),
                    types,
                    spec_fresh_fuel(types),
                    p.push(k),
                ),
            }
        };
        errs + spec_check_unknown(
            tag_entries.subrange(1, tag_entries.len() as int),
            req,
            opt,
            add,
            types,
            p,
        )
    }
}

/// Validate a node against a schema node: required, then optional, then
/// unknown keys, in that order, each section in key order.
pub open spec fn spec_vnode(
    tag: NodeVal,
    schema: NodeVal,
    types: Option<Seq<(Seq<char>, PropVal)>>,
    fuel: nat,
    p: Seq<Seq<char>>,
) -> Seq<SErr>
    decreases vnode_size(tag), fuel, 9nat, 0nat,
{
    let req = spec_section(schema, "Required"@);
    let opt = spec_section(schema, "Optional"@);
    let add = spec_additional(schema);
    let e1: Seq<SErr> = match req {
        Option::Some(r) => spec_check_req(r, tag, types, p),
        Option::None => Seq::empty(),
    };
    let e2: Seq<SErr> = match opt {
        Option::Some(o) => spec_check_opt(o, tag, types, p),
        Option::None => Seq::empty(),
    };
    let e3: Seq<SErr> = match tag.properties {
        Option::Some(tp) => spec_check_unknown(tp, req, opt, add, types, p),
        Option::None => Seq::empty(),
    };
    e1 + e2 + e3
}

/// The errors of validating a tree against a schema: each error's code
/// and the tree path where it was detected, in walk order.
pub open spec fn spec_validate_schema(tag: NodeVal, schema: NodeVal) -> Seq<SErr> {
    spec_vnode(tag, schema, spec_section(schema, "Types"@), spec_fresh_fuel(
        spec_section(schema, "Types"@),
    ), Seq::empty())
}

/// Validate that every link in the tree resolves. The result is empty
/// exactly when every link can be resolved by the resolution rule (the
/// reference validator is sound and complete for that rule); otherwise
/// there is exactly one error per unresolved link, in walk order, each
/// with the unresolved-reference code and the tree path of its link.
pub fn validate_references(root: &MOTLYNode) -> (errors: Vec<ValidationError>)
    ensures
        (errors@.len() == 0) == spec_all_refs_ok(view_node(*root)),
        verr_paths(errors@) == spec_ref_error_paths(view_node(*root)),
        forall|i: int|
            0 <= i < errors@.len() ==> (#[trigger] errors@[i]).code@ == "unresolved-reference"@,
{
    let mut errors: Vec<ValidationError> = Vec::new();
    let mut path: Vec<String> = Vec::new();
    let mut ancestors: Vec<&MOTLYNode> = Vec::new();
    ancestors.push(root);
    proof {
        assert(views_of(ancestors@) =~= seq![view_node(*root)]);
        assert(path_views(path@) =~= Seq::<Seq<char>>::empty());
        assert(verr_paths(errors@) =~= Seq::<Seq<Seq<char>>>::empty());
    }
    let _ = walk_refs_node(root, &mut path, &mut ancestors, root, &mut errors);
    proof {
        lemma_cat_empty(spec_ref_error_paths(view_node(*root)));
    }
    errors
}

// ---- Schema validation: the executable engine ---------------------------------

/// Relies on regex::Regex::new and regex::Regex::is_match: whether the
/// pattern compiles, and whether it then matches the text, depend on the
/// two strings alone; a failed compile reports the library's message.
#[verifier::external_body]
fn regex_match(pattern: &str, text: &str) -> (r: Result<bool, String>)
    ensures
        r is Ok <==> regex_compiles(pattern@),
        (r matches Ok(m) ==> m == regex_accepts(pattern@, text@)),
{
    match regex::Regex::new(pattern) {
        Ok(re) => Ok(re.is_match(text)),
        Err(e) => Err(e.to_string()),
    }
}

/// A schema error as the conformance rules state it: its code and the
/// tree path where it was detected.
#[verifier::ext_equal]
pub ghost struct SErr {
    pub code: Seq<char>,
    pub path: Seq<Seq<char>>,
}

/// One error with the given code at the given path.
pub open spec fn serr1(code: Seq<char>, p: Seq<Seq<char>>) -> Seq<SErr> {
    seq![SErr { code: code, path: p }]
}

/// The views of a list of schema errors, in order: each error's code and
/// path.
pub open spec fn schema_views(es: Seq<SchemaError>) -> Seq<SErr> {
    es.map(|i: int, e: SchemaError| SErr { code: e.code@, path: path_views(e.path@) })
}

/// Copy a path.
fn clone_path(path: &Vec<String>) -> (r: Vec<String>)
    ensures
        path_views(r@) == path_views(path@),
{
    let mut p: Vec<String> = Vec::new();
    let mut i: usize = 0;
    while i < path.len()
        invariant
            i <= path@.len(),
            p@.len() == i,
            forall|k: int| 0 <= k < i ==> #[trigger] p@[k]@ == path@[k]@,
        decreases path@.len() - i,
    {
        p.push(path[i].clone());
        i += 1;
    }
    proof {
        assert(path_views(p@) =~= path_views(path@));
    }
    p
}

/// Append one schema error with the given code at the given path.
fn push_schema_error(errors: &mut Vec<SchemaError>, code: &str, message: String, path: &Vec<String>)
    ensures
        schema_views(final(errors)@) == schema_views(old(errors)@) + serr1(
            code@,
            path_views(path@),
        ),
{
    let e = SchemaError { message, path: clone_path(path), code: code.to_owned() };
    errors.push(e);
    proof {
        assert(schema_views(errors@) =~= schema_views(old(errors)@) + serr1(
            e.code@,
            path_views(e.path@),
        ));
    }
}

/// The eq slot of a node when it is a string (as an owned copy).
fn get_eq_string(node: &MOTLYNode) -> (r: Option<String>)
    ensures
        match r {
            Option::Some(s) => spec_eq_string(view_node(*node)) == Option::Some(s@),
            Option::None => spec_eq_string(view_node(*node) ) is None,
        },
{
    match &node.eq {
        Option::Some(EqValue::Scalar(Scalar::String(s))) => Option::Some(s.clone()),
        _ => Option::None,
    }
}

/// A section of a schema node: the property list of `node.name`.
fn extract_section<'a>(node: &'a MOTLYNode, name: &str) -> (r: Option<&'a Vec<Property>>)
    ensures
        match r {
            Option::Some(ps) => spec_section(view_node(*node), name@) == Option::Some(
                view_props(ps@),
            ),
            Option::None => spec_section(view_node(*node), name@) is None,
        },
{
    match &node.properties {
        Option::Some(ps) => match props_get(ps, name) {
            Option::Some(pv) => match pv.as_node() {
                Option::Some(c) => match &c.properties {
                    Option::Some(cp) => Option::Some(cp),
                    Option::None => Option::None,
                },
                Option::None => Option::None,
            },
            Option::None => Option::None,
        },
        Option::None => Option::None,
    }
}

/// The unknown-key policy read from the `Additional` property.
enum AdditionalPolicy {
    Reject,
    Allow,
    ValidateAs(String),
}

spec fn apolicy_view(p: AdditionalPolicy) -> APolicy {
    match p {
        AdditionalPolicy::Reject => APolicy::Reject,
        AdditionalPolicy::Allow => APolicy::Allow,
        AdditionalPolicy::ValidateAs(s) => APolicy::ValidateAs(s@),
    }
}

/// Read the `Additional` policy of a schema node.
fn get_additional_policy(schema: &MOTLYNode) -> (r: AdditionalPolicy)
    ensures
        apolicy_view(r) == spec_additional(view_node(*schema)),
{
    let add = match &schema.properties {
        Option::Some(ps) => props_get(ps, "Additional"),
        Option::None => Option::None,
    };
    match add {
        Option::Some(pv) => match pv.as_node() {
            Option::Some(n) => {
                match get_eq_string(n) {
                    Option::Some(s) => {
                        if str_eq(s.as_str(), "allow") {
                            AdditionalPolicy::Allow
                        } else if str_eq(s.as_str(), "reject") {
                            AdditionalPolicy::Reject
                        } else {
                            AdditionalPolicy::ValidateAs(s)
                        }
                    },
                    Option::None => AdditionalPolicy::Allow,
                }
            },
            Option::None => AdditionalPolicy::Reject,
        },
        Option::None => AdditionalPolicy::Reject,
    }
}

/// A synthetic type spec node whose eq is the type name.
fn make_type_spec_node(tyname: &str) -> (r: MOTLYPropertyValue)
    ensures
        view_pv(r) == spec_synth(tyname@),
{
    MOTLYPropertyValue::Node(
        MOTLYNode::with_eq(EqValue::Scalar(Scalar::String(tyname.to_owned()))),
    )
}

/// Scalar equality by value.
fn scalar_eq(a: &Scalar, b: &Scalar) -> (r: bool)
    ensures
        r == (view_scalar(*a) == view_scalar(*b)),
{
    match (a, b) {
        (Scalar::String(x), Scalar::String(y)) => str_eq(x.as_str(), y.as_str()),
        (Scalar::Boolean(x), Scalar::Boolean(y)) => x == y,
        (Scalar::Date(x), Scalar::Date(y)) => str_eq(x.as_str(), y.as_str()),
        (Scalar::Number(crate::num::Number::Integer(x)), Scalar::Number(
            crate::num::Number::Integer(y),
        )) => x == y,
        (Scalar::Number(crate::num::Number::Decimal(x)), Scalar::Number(
            crate::num::Number::Decimal(y),
        )) => str_eq(x.as_str(), y.as_str()),
        _ => false,
    }
}

/// One expansion budget, from the `Types` section size.
fn fresh_fuel(types: &Option<&Vec<Property>>) -> (r: usize)
    ensures
        r as nat == spec_fresh_fuel(match *types {
            Option::Some(t) => Option::Some(view_props(t@)),
            Option::None => Option::None,
        }),
{
    match types {
        Option::Some(t) => {
            proof {
                lemma_view_props_index(t@);
            }
            if t.len() < usize::MAX {
                t.len() + 1
            } else {
                t.len()
            }
        },
        Option::None => 1,
    }
}

/// The `Types` section as a spec value.
spec fn types_view(types: Option<&Vec<Property>>) -> Option<Seq<(Seq<char>, PropVal)>> {
    match types {
        Option::Some(t) => Option::Some(view_props(t@)),
        Option::None => Option::None,
    }
}

/// Validate a value against an enum member list.
#[verifier::loop_isolation(false)]
fn validate_enum(
    value: &MOTLYPropertyValue,
    allowed: &Vec<MOTLYPropertyValue>,
    path: &Vec<String>,
    errors: &mut Vec<SchemaError>,
)
    ensures
        schema_views(final(errors)@) == schema_views(old(errors)@) + spec_venum(
            view_pv(*value),
            view_pvs(allowed@),
            path_views(path@),
        ),
{
    proof {
        lemma_view_pvs_index(allowed@);
    }
    let node = match value.as_node() {
        Option::Some(n) => n,
        Option::None => {
            push_schema_error(
                errors,
                "wrong-type",
                "Expected an enum value but found a link".to_owned(),
                path,
            );
            return;
        },
    };
    let node_eq = match &node.eq {
        Option::Some(EqValue::Scalar(s)) => s,
        _ => {
            push_schema_error(errors, "invalid-enum-value", "Expected an enum value".to_owned(), path);
            proof {
                lemma_cat_empty(schema_views(old(errors)@));
            }
            return;
        },
    };
    let mut found = false;
    let mut i: usize = 0;
    while i < allowed.len()
        invariant
            i <= allowed@.len(),
            found == (exists|k: int|
                0 <= k < i && (match #[trigger] view_pvs(allowed@)[k] {
                    PropVal::Node(m) => m.eq == Option::Some(
                        EqVal::Scalar(view_scalar(*node_eq)),
                    ),
                    PropVal::Ref(_) => false,
                })),
            view_pvs(allowed@).len() == allowed@.len(),
            forall|k: int|
                0 <= k < allowed@.len() ==> #[trigger] view_pvs(allowed@)[k] == view_pv(
                    allowed@[k],
                ),
        decreases allowed@.len() - i,
    {
        proof {
            assert(view_pvs(allowed@)[i as int] == view_pv(allowed@[i as int]));
        }
        match allowed[i].as_node() {
            Option::Some(m) => {
                proof {
                    assert(view_pvs(allowed@)[i as int] == PropVal::Node(view_node(*m)));
                }
                match &m.eq {
                    Option::Some(EqValue::Scalar(ms)) => {
                        proof {
                            assert(view_node(*m).eq == Option::Some(
                                EqVal::Scalar(view_scalar(*ms)),
                            ));
                        }
                        if scalar_eq(ms, node_eq) {
                            found = true;
                        }
                    },
                    _ => {},
                }
            },
            Option::None => {},
        }
        i += 1;
    }
    if !found {
        proof {
            assert(!spec_enum_has(view_pvs(allowed@), view_scalar(*node_eq)));
        }
        push_schema_error(
            errors,
            "invalid-enum-value",
            "Value does not match any allowed enum value".to_owned(),
            path,
        );
    } else {
        proof {
            assert(spec_enum_has(view_pvs(allowed@), view_scalar(*node_eq)));
            lemma_cat_empty(schema_views(errors@));
        }
    }
}

/// Validate a string value against a regex pattern from a `matches` node.
fn validate_pattern(
    value: &MOTLYPropertyValue,
    matches_node: &MOTLYNode,
    path: &Vec<String>,
    errors: &mut Vec<SchemaError>,
)
    ensures
        schema_views(final(errors)@) == schema_views(old(errors)@) + spec_vpattern(
            view_pv(*value),
            view_node(*matches_node),
            path_views(path@),
        ),
{
    let pattern = match get_eq_string(matches_node) {
        Option::Some(p) => p,
        Option::None => {
            proof {
                lemma_cat_empty(schema_views(errors@));
            }
            return;
        },
    };
    let node = match value.as_node() {
        Option::Some(n) => n,
        Option::None => {
            push_schema_error(
                errors,
                "wrong-type",
                "Expected a value matching a pattern but found a link".to_owned(),
                path,
            );
            return;
        },
    };
    let val_str = match get_eq_string(node) {
        Option::Some(s) => s,
        Option::None => {
            push_schema_error(
                errors,
                "pattern-mismatch",
                "Expected a string matching the pattern".to_owned(),
                path,
            );
            return;
        },
    };
    match regex_match(pattern.as_str(), val_str.as_str()) {
        Result::Ok(true) => {
            proof {
                lemma_cat_empty(schema_views(errors@));
            }
        },
        Result::Ok(false) => {
            push_schema_error(
                errors,
                "pattern-mismatch",
                "Value does not match the pattern".to_owned(),
                path,
            );
        },
        Result::Err(msg) => {
            push_schema_error(errors, "invalid-schema", msg, path);
        },
    }
}

/// Validate a value against a type spec (union, enum, pattern, name, or
/// structural), in that fixed order.
#[verifier::loop_isolation(false)]
fn validate_value_type(
    value: &MOTLYPropertyValue,
    type_spec: &MOTLYPropertyValue,
    types: &Option<&Vec<Property>>,
    fuel: usize,
    path: &Vec<String>,
    errors: &mut Vec<SchemaError>,
)
    ensures
        schema_views(final(errors)@) == schema_views(old(errors)@) + spec_vvalue(
            view_pv(*value),
            view_pv(*type_spec),
            types_view(*types),
            fuel as nat,
            path_views(path@),
        ),
    decreases vpv_size(view_pv(*value)), fuel, 4nat, 0nat,
{
    let spec_node = match type_spec.as_node() {
        Option::Some(n) => n,
        Option::None => {
            proof {
                lemma_cat_empty(schema_views(errors@));
            }
            return;
        },
    };
    // oneOf union
    let one_of = match &spec_node.properties {
        Option::Some(ps) => props_get(ps, "oneOf"),
        Option::None => Option::None,
    };
    match one_of {
        Option::Some(pv) => match pv.as_node() {
            Option::Some(one) => {
                match &one.eq {
                    Option::Some(EqValue::Array(members)) => {
                        if validate_union(value, members, types, fuel, path, errors) {
                            proof {
                                lemma_cat_empty(schema_views(errors@));
                            }
                        } else {
                            push_schema_error(
                                errors,
                                "wrong-type",
                                "Value does not match any type in oneOf".to_owned(),
                                path,
                            );
                        }
                        return;
                    },
                    _ => {
                        proof {
                            lemma_cat_empty(schema_views(errors@));
                        }
                        return;
                    },
                }
            },
            Option::None => {},
        },
        Option::None => {},
    }
    // enum
    let eq_prop = match &spec_node.properties {
        Option::Some(ps) => props_get(ps, "eq"),
        Option::None => Option::None,
    };
    match eq_prop {
        Option::Some(pv) => match pv.as_node() {
            Option::Some(en) => {
                match &en.eq {
                    Option::Some(EqValue::Array(allowed)) => {
                        validate_enum(value, allowed, path, errors);
                        return;
                    },
                    _ => {},
                }
            },
            Option::None => {},
        },
        Option::None => {},
    }
    // pattern
    let matches_prop = match &spec_node.properties {
        Option::Some(ps) => props_get(ps, "matches"),
        Option::None => Option::None,
    };
    match matches_prop {
        Option::Some(pv) => match pv.as_node() {
            Option::Some(mnode) => {
                let ghost c0 = schema_views(errors@);
                let ghost base_codes: Seq<SErr> = match spec_eq_string(
                    view_node(*spec_node),
                ) {
                    Option::Some(base) => spec_vbase(
                        view_pv(*value),
                        base,
                        types_view(*types),
                        fuel as nat,
                        path_views(path@),
                    ),
                    Option::None => Seq::empty(),
                };
                match get_eq_string(spec_node) {
                    Option::Some(base) => {
                        let bc = str_to_chars(base.as_str());
                        validate_base_type(value, &bc, types, fuel, path, errors);
                    },
                    Option::None => {
                        proof {
                            lemma_cat_empty(c0);
                        }
                    },
                }
                validate_pattern(value, mnode, path, errors);
                proof {
                    lemma_group2(
                        c0,
                        base_codes,
                        spec_vpattern(view_pv(*value), view_node(*mnode), path_views(path@)),
                    );
                }
                return;
            },
            Option::None => {},
        },
        Option::None => {},
    }
    // named or structural
    match get_eq_string(spec_node) {
        Option::Some(tn) => {
            let tc = str_to_chars(tn.as_str());
            validate_base_type(value, &tc, types, fuel, path, errors);
        },
        Option::None => {
            let has_sections = {
                let a = match &spec_node.properties {
                    Option::Some(ps) => props_get(ps, "Required").is_some(),
                    Option::None => false,
                };
                let b = match &spec_node.properties {
                    Option::Some(ps) => props_get(ps, "Optional").is_some(),
                    Option::None => false,
                };
                let c = match &spec_node.properties {
                    Option::Some(ps) => props_get(ps, "Additional").is_some(),
                    Option::None => false,
                };
                a || b || c
            };
            if has_sections {
                match value.as_node() {
                    Option::Some(tag_node) => {
                        validate_node_against_schema(tag_node, spec_node, types, fuel, path, errors);
                    },
                    Option::None => {
                        push_schema_error(
                            errors,
                            "wrong-type",
                            "Expected a tag but found a link".to_owned(),
                            path,
                        );
                    },
                }
            } else {
                proof {
                    lemma_cat_empty(schema_views(errors@));
                }
            }
        },
    }
}

/// Try each member of a union; the value is valid when some member's name
/// validates it without errors.
#[verifier::loop_isolation(false)]
fn validate_union(
    value: &MOTLYPropertyValue,
    members: &Vec<MOTLYPropertyValue>,
    types: &Option<&Vec<Property>>,
    fuel: usize,
    path: &Vec<String>,
    errors: &mut Vec<SchemaError>,
) -> (ok: bool)
    ensures
        final(errors)@ == old(errors)@,
        ok == spec_vunion(
            view_pv(*value),
            view_pvs(members@),
            types_view(*types),
            fuel as nat,
            path_views(path@),
        ),
    decreases vpv_size(view_pv(*value)), fuel, 3nat, members@.len(),
{
    proof {
        lemma_view_pvs_index(members@);
        assert(view_pvs(members@).subrange(0, view_pvs(members@).len() as int) =~= view_pvs(
            members@,
        ));
    }
    let ghost mv = view_pvs(members@);
    let mut i: usize = 0;
    while i < members.len()
        invariant
            i <= members@.len(),
            errors@ == old(errors)@,
            mv == view_pvs(members@),
            mv.len() == members@.len(),
            forall|k: int| 0 <= k < members@.len() ==> #[trigger] mv[k] == view_pv(members@[k]),
            spec_vunion(view_pv(*value), mv, types_view(*types), fuel as nat, path_views(path@))
                == spec_vunion(
                view_pv(*value),
                mv.subrange(i as int, mv.len() as int),
                types_view(*types),
                fuel as nat,
                path_views(path@),
            ),
        decreases members@.len() - i,
    {
        proof {
            assert(mv.subrange(i as int, mv.len() as int)[0] == mv[i as int]);
            assert(mv.subrange(i as int, mv.len() as int).subrange(
                1,
                mv.len() - i,
            ) =~= mv.subrange(i + 1, mv.len() as int));
        }
        let tn = match members[i].as_node() {
            Option::Some(m) => get_eq_string(m),
            Option::None => Option::None,
        };
        match tn {
            Option::Some(name) => {
                if fuel > 0 {
                    let synth = make_type_spec_node(name.as_str());
                    let mut trial: Vec<SchemaError> = Vec::new();
                    proof {
                        assert(schema_views(Seq::<SchemaError>::empty()) =~= Seq::<
                            SErr,
                        >::empty());
                    }
                    validate_value_type(value, &synth, types, fuel - 1, path, &mut trial);
                    proof {
                        lemma_cat_empty(
                            spec_vvalue(
                                view_pv(*value),
                                spec_synth(name@),
                                types_view(*types),
                                (fuel - 1) as nat,
                                path_views(path@),
                            ),
                        );
                        assert(schema_views(trial@).len() == trial@.len());
                    }
                    if trial.len() == 0 {
                        return true;
                    }
                }
            },
            Option::None => {},
        }
        i += 1;
    }
    proof {
        assert(mv.subrange(mv.len() as int, mv.len() as int) =~= Seq::<PropVal>::empty());
    }
    false
}

/// Validate a value against a base type name: `T[]`, a built-in name, or a
/// named type from the root `Types` section.
#[verifier::loop_isolation(false)]
fn validate_base_type(
    value: &MOTLYPropertyValue,
    name: &Vec<char>,
    types: &Option<&Vec<Property>>,
    fuel: usize,
    path: &Vec<String>,
    errors: &mut Vec<SchemaError>,
)
    ensures
        schema_views(final(errors)@) == schema_views(old(errors)@) + spec_vbase(
            view_pv(*value),
            name@,
            types_view(*types),
            fuel as nat,
            path_views(path@),
        ),
    decreases vpv_size(view_pv(*value)), fuel, 2nat, 0nat,
{
    let n = name.len();
    if n >= 2 && name[n - 2] == '[' && name[n - 1] == ']' {
        // array type
        let mut inner: Vec<char> = Vec::new();
        let mut t: usize = 0;
        while t < n - 2
            invariant
                t <= n - 2,
                n == name@.len(),
                n >= 2,
                inner@ == name@.subrange(0, t as int),
            decreases n - 2 - t,
        {
            inner.push(name[t]);
            proof {
                assert(name@.subrange(0, t as int).push(name@[t as int]) =~= name@.subrange(
                    0,
                    t + 1,
                ));
            }
            t += 1;
        }
        let node = match value.as_node() {
            Option::Some(nd) => nd,
            Option::None => {
                push_schema_error(
                    errors,
                    "wrong-type",
                    "Expected an array type but found a link".to_owned(),
                    path,
                );
                return;
            },
        };
        match &node.eq {
            Option::Some(EqValue::Array(arr)) => {
                proof {
                    lemma_view_pvs_index(arr@);
                }
                let ghost av = view_pvs(arr@);
                let ghost c0 = schema_views(errors@);
                let ghost p0v = path_views(path@);
                let mut i: usize = 0;
                proof {
                    assert(av.subrange(0, av.len() as int) =~= av);
                    lemma_cat_empty(c0);
                }
                while i < arr.len()
                    invariant
                        i <= arr@.len(),
                        av == view_pvs(arr@),
                        av.len() == arr@.len(),
                        inner@ == name@.subrange(0, name@.len() - 2),
                        forall|k: int|
                            0 <= k < arr@.len() ==> #[trigger] av[k] == view_pv(arr@[k]),
                        schema_views(errors@) + spec_velems(
                            av.subrange(i as int, av.len() as int),
                            inner@,
                            types_view(*types),
                            p0v,
                            i as int,
                        ) == c0 + spec_velems(av, inner@, types_view(*types), p0v, 0),
                    decreases arr@.len() - i,
                {
                    proof {
                        assert(av.subrange(i as int, av.len() as int)[0] == av[i as int]);
                        assert(av.subrange(i as int, av.len() as int).subrange(
                            1,
                            av.len() - i,
                        ) =~= av.subrange(i + 1, av.len() as int));
                    }
                    let ghost pre = schema_views(errors@);
                    let mut idx_text: Vec<char> = Vec::new();
                    idx_text.push('[');
                    write_u64_dec(&mut idx_text, i as u64);
                    idx_text.push(']');
                    let mut epath = clone_path(path);
                    proof {
                        assert(idx_text@ =~= idx_seg(i as int));
                    }
                    epath.push(chars_to_string(&idx_text));
                    proof {
                        assert(path_views(epath@) =~= p0v.push(idx_seg(i as int)));
                    }
                    let f = fresh_fuel(types);
                    proof {
                        lemma_vpvs_size_elem(av, i as int);
                        assert(view_pv(*value) == PropVal::Node(view_node(*node)));
                        assert(view_node(*node).eq == Option::Some(EqVal::Array(av)));
                        assert(vpv_size(av[i as int]) < vpv_size(view_pv(*value)));
                    }
                    validate_base_type(&arr[i], &inner, types, f, &epath, errors);
                    proof {
                        lemma_group2(
                            pre,
                            spec_vbase(
                                av[i as int],
                                inner@,
                                types_view(*types),
                                spec_fresh_fuel(types_view(*types)),
                                p0v.push(idx_seg(i as int)),
                            ),
                            spec_velems(
                                av.subrange(i + 1, av.len() as int),
                                inner@,
                                types_view(*types),
                                p0v,
                                i + 1,
                            ),
                        );
                    }
                    i += 1;
                }
                proof {
                    assert(av.subrange(av.len() as int, av.len() as int) =~= Seq::<
                        PropVal,
                    >::empty());
                    lemma_cat_empty(schema_views(errors@));
                }
            },
            _ => {
                push_schema_error(
                    errors,
                    "wrong-type",
                    "Expected an array value".to_owned(),
                    path,
                );
            },
        }
        return;
    }
    let ns = chars_to_string(name);
    if str_eq(ns.as_str(), "string") {
        validate_scalar_shape(value, 0, path, errors);
    } else if str_eq(ns.as_str(), "number") {
        validate_scalar_shape(value, 1, path, errors);
    } else if str_eq(ns.as_str(), "boolean") {
        validate_scalar_shape(value, 2, path, errors);
    } else if str_eq(ns.as_str(), "date") {
        validate_scalar_shape(value, 3, path, errors);
    } else if str_eq(ns.as_str(), "tag") || str_eq(ns.as_str(), "flag") {
        match value.as_node() {
            Option::Some(_) => {
                proof {
                    lemma_cat_empty(schema_views(errors@));
                }
            },
            Option::None => {
                push_schema_error(
                    errors,
                    "wrong-type",
                    "Expected a tag but found a link".to_owned(),
                    path,
                );
            },
        }
    } else if str_eq(ns.as_str(), "any") {
        proof {
            lemma_cat_empty(schema_views(errors@));
        }
    } else {
        match types {
            Option::Some(tm) => {
                proof {
                    lemma_view_props_index(tm@);
                    crate::tree::lemma_vprops_find_properties(view_props(tm@), name@, 0);
                }
                match props_get(tm, ns.as_str()) {
                    Option::Some(def) => {
                        if fuel > 0 {
                            validate_value_type(value, def, types, fuel - 1, path, errors);
                        } else {
                            push_schema_error(
                                errors,
                                "invalid-schema",
                                "Named types nest too deeply".to_owned(),
                                path,
                            );
                        }
                    },
                    Option::None => {
                        push_schema_error(
                            errors,
                            "invalid-schema",
                            "Unknown type in schema".to_owned(),
                            path,
                        );
                    },
                }
            },
            Option::None => {
                push_schema_error(
                    errors,
                    "invalid-schema",
                    "Unknown type (no Types section in schema)".to_owned(),
                    path,
                );
            },
        }
    }
}

/// Check that a value is a node whose eq is the given scalar kind.
fn validate_scalar_shape(
    value: &MOTLYPropertyValue,
    kind: u8,
    path: &Vec<String>,
    errors: &mut Vec<SchemaError>,
)
    requires
        kind <= 3,
    ensures
        schema_views(final(errors)@) == schema_views(old(errors)@) + spec_vscalar_shape(
            view_pv(*value),
            kind as int,
            path_views(path@),
        ),
{
    match value.as_node() {
        Option::Some(n) => {
            let ok = match &n.eq {
                Option::Some(EqValue::Scalar(s)) => match s {
                    Scalar::String(_) => kind == 0,
                    Scalar::Number(_) => kind == 1,
                    Scalar::Boolean(_) => kind == 2,
                    Scalar::Date(_) => kind == 3,
                },
                _ => false,
            };
            if ok {
                proof {
                    lemma_cat_empty(schema_views(errors@));
                }
            } else {
                push_schema_error(errors, "wrong-type", "Unexpected value type".to_owned(), path);
            }
        },
        Option::None => {
            push_schema_error(
                errors,
                "wrong-type",
                "Expected a value but found a link".to_owned(),
                path,
            );
        },
    }
}

/// Validate a node against a schema node: required, optional, then unknown
/// keys, in that order.
#[verifier::loop_isolation(false)]
fn validate_node_against_schema(
    tag: &MOTLYNode,
    schema: &MOTLYNode,
    types: &Option<&Vec<Property>>,
    fuel: usize,
    path: &Vec<String>,
    errors: &mut Vec<SchemaError>,
)
    ensures
        schema_views(final(errors)@) == schema_views(old(errors)@) + spec_vnode(
            view_node(*tag),
            view_node(*schema),
            types_view(*types),
            fuel as nat,
            path_views(path@),
        ),
    decreases vnode_size(view_node(*tag)), fuel, 9nat, 0nat,
{
    let ghost tagv = view_node(*tag);
    let ghost tv = types_view(*types);
    let ghost c0 = schema_views(errors@);
    let ghost p0v = path_views(path@);
    let required = extract_section(schema, "Required");
    let optional = extract_section(schema, "Optional");
    let additional = get_additional_policy(schema);
    let ghost reqv = spec_section(view_node(*schema), "Required"@);
    let ghost optv = spec_section(view_node(*schema), "Optional"@);
    let ghost e1: Seq<SErr> = match reqv {
        Option::Some(r) => spec_check_req(r, tagv, tv, p0v),
        Option::None => Seq::empty(),
    };
    let ghost e2: Seq<SErr> = match optv {
        Option::Some(o) => spec_check_opt(o, tagv, tv, p0v),
        Option::None => Seq::empty(),
    };
    let ghost e3: Seq<SErr> = match tagv.properties {
        Option::Some(tp) => spec_check_unknown(tp, reqv, optv, spec_additional(
            view_node(*schema),
        ), tv, p0v),
        Option::None => Seq::empty(),
    };
    // required
    match required {
        Option::Some(req) => {
            proof {
                lemma_view_props_index(req@);
            }
            let ghost rv = view_props(req@);
            let mut i: usize = 0;
            proof {
                assert(rv.subrange(0, rv.len() as int) =~= rv);
                lemma_cat_empty(c0);
            }
            while i < req.len()
                invariant
                    i <= req@.len(),
                    rv == view_props(req@),
                    rv.len() == req@.len(),
                    tagv == view_node(*tag),
                    tv == types_view(*types),
                    forall|k: int|
                        0 <= k < req@.len() ==> #[trigger] rv[k] == (
                            req@[k].name@,
                            view_pv(req@[k].value),
                        ),
                    schema_views(errors@) + spec_check_req(
                        rv.subrange(i as int, rv.len() as int),
                        tagv,
                        tv,
                        p0v,
                    ) == c0 + spec_check_req(rv, tagv, tv, p0v),
                decreases req@.len() - i,
            {
                proof {
                    assert(rv.subrange(i as int, rv.len() as int)[0] == rv[i as int]);
                    assert(rv.subrange(i as int, rv.len() as int).subrange(
                        1,
                        rv.len() - i,
                    ) =~= rv.subrange(i + 1, rv.len() as int));
                }
                let ghost pre = schema_views(errors@);
                let key = &req[i].name;
                let tspec = &req[i].value;
                let mut ppath = clone_path(path);
                ppath.push(key.clone());
                proof {
                    assert(path_views(ppath@) =~= p0v.push(rv[i as int].0));
                }
                let tag_value = match &tag.properties {
                    Option::Some(tp) => props_get(tp, key.as_str()),
                    Option::None => Option::None,
                };
                match tag_value {
                    Option::None => {
                        push_schema_error(
                            errors,
                            "missing-required",
                            "Missing required property".to_owned(),
                            &ppath,
                        );
                    },
                    Option::Some(v) => {
                        let f = fresh_fuel(types);
                        proof {
                            assert(node_get(tagv, req@[i as int].name@) == Option::Some(
                                view_pv(*v),
                            ));
                            lemma_node_get_size(tagv, req@[i as int].name@);
                        }
                        validate_value_type(v, tspec, types, f, &ppath, errors);
                    },
                }
                proof {
                    let head: Seq<SErr> = match node_get(tagv, rv[i as int].0) {
                        Option::None => serr1("missing-required"@, p0v.push(rv[i as int].0)),
                        Option::Some(v) => spec_vvalue(v, rv[i as int].1, tv, spec_fresh_fuel(tv),
                            p0v.push(rv[i as int].0)),
                    };
                    lemma_group2(
                        pre,
                        head,
                        spec_check_req(rv.subrange(i + 1, rv.len() as int), tagv, tv, p0v),
                    );
                }
                i += 1;
            }
            proof {
                assert(rv.subrange(rv.len() as int, rv.len() as int) =~= Seq::<(
                    Seq<char>,
                    PropVal,
                )>::empty());
                lemma_cat_empty(schema_views(errors@));
            }
        },
        Option::None => {
            proof {
                lemma_cat_empty(c0);
            }
        },
    }
    let ghost c1 = schema_views(errors@);
    // optional
    match optional {
        Option::Some(opt) => {
            proof {
                lemma_view_props_index(opt@);
            }
            let ghost ov = view_props(opt@);
            let mut i: usize = 0;
            proof {
                assert(ov.subrange(0, ov.len() as int) =~= ov);
                lemma_cat_empty(c1);
            }
            while i < opt.len()
                invariant
                    i <= opt@.len(),
                    ov == view_props(opt@),
                    ov.len() == opt@.len(),
                    tagv == view_node(*tag),
                    tv == types_view(*types),
                    forall|k: int|
                        0 <= k < opt@.len() ==> #[trigger] ov[k] == (
                            opt@[k].name@,
                            view_pv(opt@[k].value),
                        ),
                    schema_views(errors@) + spec_check_opt(
                        ov.subrange(i as int, ov.len() as int),
                        tagv,
                        tv,
                        p0v,
                    ) == c1 + spec_check_opt(ov, tagv, tv, p0v),
                decreases opt@.len() - i,
            {
                proof {
                    assert(ov.subrange(i as int, ov.len() as int)[0] == ov[i as int]);
                    assert(ov.subrange(i as int, ov.len() as int).subrange(
                        1,
                        ov.len() - i,
                    ) =~= ov.subrange(i + 1, ov.len() as int));
                }
                let ghost pre = schema_views(errors@);
                let key = &opt[i].name;
                let tspec = &opt[i].value;
                let tag_value = match &tag.properties {
                    Option::Some(tp) => props_get(tp, key.as_str()),
                    Option::None => Option::None,
                };
                match tag_value {
                    Option::None => {
                        proof {
                            lemma_cat_empty(pre);
                        }
                    },
                    Option::Some(v) => {
                        let mut ppath = clone_path(path);
                        ppath.push(key.clone());
                        let f = fresh_fuel(types);
                        proof {
                            assert(path_views(ppath@) =~= p0v.push(ov[i as int].0));
                            assert(node_get(tagv, opt@[i as int].name@) == Option::Some(
                                view_pv(*v),
                            ));
                            lemma_node_get_size(tagv, opt@[i as int].name@);
                        }
                        validate_value_type(v, tspec, types, f, &ppath, errors);
                    },
                }
                proof {
                    let head: Seq<SErr> = match node_get(tagv, ov[i as int].0) {
                        Option::None => Seq::<SErr>::empty(),
                        Option::Some(v) => spec_vvalue(v, ov[i as int].1, tv, spec_fresh_fuel(tv),
                            p0v.push(ov[i as int].0)),
                    };
                    lemma_group2(
                        pre,
                        head,
                        spec_check_opt(ov.subrange(i + 1, ov.len() as int), tagv, tv, p0v),
                    );
                }
                i += 1;
            }
            proof {
                assert(ov.subrange(ov.len() as int, ov.len() as int) =~= Seq::<(
                    Seq<char>,
                    PropVal,
                )>::empty());
                lemma_cat_empty(schema_views(errors@));
            }
        },
        Option::None => {
            proof {
                lemma_cat_empty(c1);
            }
        },
    }
    let ghost c2 = schema_views(errors@);
    // unknown keys
    match &tag.properties {
        Option::Some(tp) => {
            proof {
                lemma_view_props_index(tp@);
            }
            let ghost tpv = view_props(tp@);
            let mut i: usize = 0;
            proof {
                assert(tpv.subrange(0, tpv.len() as int) =~= tpv);
                lemma_cat_empty(c2);
            }
            while i < tp.len()
                invariant
                    i <= tp@.len(),
                    tpv == view_props(tp@),
                    tpv.len() == tp@.len(),
                    tagv == view_node(*tag),
                    tv == types_view(*types),
                    reqv == spec_section(view_node(*schema), "Required"@),
                    optv == spec_section(view_node(*schema), "Optional"@),
                    apolicy_view(additional) == spec_additional(view_node(*schema)),
                    forall|k: int|
                        0 <= k < tp@.len() ==> #[trigger] tpv[k] == (
                            tp@[k].name@,
                            view_pv(tp@[k].value),
                        ),
                    schema_views(errors@) + spec_check_unknown(
                        tpv.subrange(i as int, tpv.len() as int),
                        reqv,
                        optv,
                        apolicy_view(additional),
                        tv,
                        p0v,
                    ) == c2 + spec_check_unknown(tpv, reqv, optv, apolicy_view(additional), tv,
                        p0v),
                decreases tp@.len() - i,
            {
                proof {
                    assert(tpv.subrange(i as int, tpv.len() as int)[0] == tpv[i as int]);
                    assert(tpv.subrange(i as int, tpv.len() as int).subrange(
                        1,
                        tpv.len() - i,
                    ) =~= tpv.subrange(i + 1, tpv.len() as int));
                }
                let ghost pre = schema_views(errors@);
                let key = &tp[i].name;
                let known = {
                    let a = match required {
                        Option::Some(r) => props_get(r, key.as_str()).is_some(),
                        Option::None => false,
                    };
                    let b = match optional {
                        Option::Some(o) => props_get(o, key.as_str()).is_some(),
                        Option::None => false,
                    };
                    a || b
                };
                if known {
                    proof {
                        lemma_cat_empty(pre);
                    }
                } else {
                    match &additional {
                        AdditionalPolicy::Reject => {
                            let mut ppath = clone_path(path);
                            ppath.push(key.clone());
                            proof {
                                assert(path_views(ppath@) =~= p0v.push(tpv[i as int].0));
                            }
                            push_schema_error(
                                errors,
                                "unknown-property",
                                "Unknown property".to_owned(),
                                &ppath,
                            );
                        },
                        AdditionalPolicy::Allow => {
                            proof {
                                lemma_cat_empty(pre);
                            }
                        },
                        AdditionalPolicy::ValidateAs(tyname) => {
                            let mut ppath = clone_path(path);
                            ppath.push(key.clone());
                            proof {
                                assert(path_views(ppath@) =~= p0v.push(tpv[i as int].0));
                            }
                            let synthetic = make_type_spec_node(tyname.as_str());
                            let f = fresh_fuel(types);
                            proof {
                                lemma_ventries_size_elem(tpv, i as int);
                                assert(view_node(*tag).properties == Option::Some(tpv));
                                assert(vpv_size(tpv[i as int].1) < vnode_size(tagv));
                                assert(tpv[i as int].1 == view_pv(tp@[i as int].value));
                            }
                            validate_value_type(&tp[i].value, &synthetic, types, f, &ppath, errors);
                        },
                    }
                }
                proof {
                    let head: Seq<SErr> = if spec_known_key(reqv, optv, tpv[i as int].0) {
                        Seq::empty()
                    } else {
                        match apolicy_view(additional) {
                            APolicy::Reject => serr1("unknown-property"@, p0v.push(
                                tpv[i as int].0,
                            )),
                            APolicy::Allow => Seq::empty(),
                            APolicy::ValidateAs(tn) => spec_vvalue(
                                tpv[i as int].1,
                                spec_synth(tn),
                                tv,
                                spec_fresh_fuel(tv),
                                p0v.push(tpv[i as int].0),
                            ),
                        }
                    };
                    lemma_group2(
                        pre,
                        head,
                        spec_check_unknown(
                            tpv.subrange(i + 1, tpv.len() as int),
                            reqv,
                            optv,
                            apolicy_view(additional),
                            tv,
                            p0v,
                        ),
                    );
                }
                i += 1;
            }
            proof {
                assert(tpv.subrange(tpv.len() as int, tpv.len() as int) =~= Seq::<(
                    Seq<char>,
                    PropVal,
                )>::empty());
                lemma_cat_empty(schema_views(errors@));
            }
        },
        Option::None => {
            proof {
                lemma_cat_empty(c2);
            }
        },
    }
    proof {
        crate::text::lemma_group3(c0, e1, e2, e3);
    }
}

/// Validate a tree against a schema (itself a MOTLY tree). The errors are
/// exactly those of the conformance rules, in walk order, each with its
/// code and the tree path where it was detected.
pub fn validate_schema(tag: &MOTLYNode, schema: &MOTLYNode) -> (errors: Vec<SchemaError>)
    ensures
        schema_views(errors@) == spec_validate_schema(view_node(*tag), view_node(*schema)),
        forall|i: int|
            0 <= i < errors@.len() ==> #[trigger] schema_views(errors@)[i] == (SErr {
                code: errors@[i].code@,
                path: path_views(errors@[i].path@),
            }),
{
    let mut errors: Vec<SchemaError> = Vec::new();
    proof {
        assert(schema_views(Seq::<SchemaError>::empty()) =~= Seq::<SErr>::empty());
    }
    let types = extract_section(schema, "Types");
    let path: Vec<String> = Vec::new();
    let f = fresh_fuel(&types);
    proof {
        assert(path_views(path@) =~= Seq::<Seq<char>>::empty());
    }
    validate_node_against_schema(tag, schema, &types, f, &path, &mut errors);
    proof {
        lemma_cat_empty(spec_validate_schema(view_node(*tag), view_node(*schema)));
    }
    errors
}

} // verus!

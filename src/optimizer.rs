//! A plain-text report on a blueprint: its size, complexity, entry points,
//! node types, and hints for splitting it.
use vstd::prelude::*;
use vstd::string::StringExecFns;
use crate::value::{owned, str_eq};
use crate::logic::{UnifiedBlueprint, UnifiedNode};

verus! {

pub open spec fn digit_char(d: nat) -> char {
    if d == 0 { '0' } else if d == 1 { '1' } else if d == 2 { '2' } else if d == 3 { '3' } else if d == 4 { '4' }
    else if d == 5 { '5' } else if d == 6 { '6' } else if d == 7 { '7' } else if d == 8 { '8' } else { '9' }
}

/// The decimal digits of `n`.
pub open spec fn decimal(n: nat) -> Seq<char>
    decreases n,
{
    if n < 10 {
        seq![digit_char(n)]
    } else {
        decimal(n / 10).push(digit_char(n % 10))
    }
}

fn digit_text(d: u64) -> (r: &'static str)
    requires
        d < 10,
    ensures
        r@ == seq![digit_char(d as nat)],
{
    proof {
        reveal_strlit("0"); reveal_strlit("1"); reveal_strlit("2"); reveal_strlit("3"); reveal_strlit("4");
        reveal_strlit("5"); reveal_strlit("6"); reveal_strlit("7"); reveal_strlit("8"); reveal_strlit("9");
    }
    if d == 0 { assert("0"@ =~= seq!['0']); "0" }
    else if d == 1 { assert("1"@ =~= seq!['1']); "1" }
    else if d == 2 { assert("2"@ =~= seq!['2']); "2" }
    else if d == 3 { assert("3"@ =~= seq!['3']); "3" }
    else if d == 4 { assert("4"@ =~= seq!['4']); "4" }
    else if d == 5 { assert("5"@ =~= seq!['5']); "5" }
    else if d == 6 { assert("6"@ =~= seq!['6']); "6" }
    else if d == 7 { assert("7"@ =~= seq!['7']); "7" }
    else if d == 8 { assert("8"@ =~= seq!['8']); "8" }
    else { assert("9"@ =~= seq!['9']); "9" }
}

/// Appends the decimal digits of `n`.
pub fn push_decimal(out: &mut String, n: u64)
    ensures
        final(out)@ == old(out)@ + decimal(n as nat),
    decreases n,
{
    if n < 10 {
        out.append(digit_text(n));
    } else {
        push_decimal(out, n / 10);
        out.append(digit_text(n % 10));
        assert(final(out)@ =~= old(out)@ + decimal(n as nat));
    }
}

/// `p` occurs in `s`.
pub open spec fn has_part(s: Seq<char>, p: Seq<char>) -> bool {
    exists|i: int| 0 <= i && i + p.len() <= s.len() && #[trigger] s.subrange(i, i + p.len()) == p
}

fn text_has_part(s: &str, p: &str) -> (r: bool)
    ensures
        r == has_part(s@, p@),
{
    let n = s.unicode_len();
    let m = p.unicode_len();
    if m > n {
        return false;
    }
    if m == 0 {
        assert(s@.subrange(0int, 0int + p@.len()) =~= p@);
        return true;
    }
    let mut i: usize = 0;
    let last = n - m;
    while i <= last
        invariant
            n == s@.len(),
            m == p@.len(),
            1 <= m <= n,
            last == n - m,
            i <= last + 1,
            forall|j: int| 0 <= j < i ==> #[trigger] s@.subrange(j, j + m) != p@,
        decreases n - i,
    {
        let part = s.substring_char(i, i + m);
        if str_eq(part, p) {
            return true;
        }
        i = i + 1;
    }
    false
}

/// A node type that starts a flow.
pub open spec fn is_entry(t: Seq<char>) -> bool {
    has_part(t, "trigger"@) || t == "on_load"@ || t == "on_click"@
}

/// The entry-point lines of the report.
pub open spec fn entry_lines(nodes: Seq<UnifiedNode>) -> Seq<char>
    decreases nodes.len(),
{
    if nodes.len() == 0 {
        Seq::empty()
    } else {
        let n = nodes.last();
        entry_lines(nodes.drop_last()) + if is_entry(n.node_type@) {
            "- `"@ + n.node_type@ + "` (ID: "@ + n.id@ + ")\n"@
        } else {
            Seq::empty()
        }
    }
}

pub open spec fn entry_count(nodes: Seq<UnifiedNode>) -> nat
    decreases nodes.len(),
{
    if nodes.len() == 0 {
        0
    } else {
        entry_count(nodes.drop_last()) + if is_entry(nodes.last().node_type@) { 1nat } else { 0nat }
    }
}

/// The node types in order of first appearance.
pub open spec fn kinds(nodes: Seq<UnifiedNode>) -> Seq<Seq<char>>
    decreases nodes.len(),
{
    if nodes.len() == 0 {
        Seq::empty()
    } else {
        let prev = kinds(nodes.drop_last());
        if prev.contains(nodes.last().node_type@) {
            prev
        } else {
            prev.push(nodes.last().node_type@)
        }
    }
}

/// How many nodes have type `t`.
pub open spec fn kind_count(nodes: Seq<UnifiedNode>, t: Seq<char>) -> nat
    decreases nodes.len(),
{
    if nodes.len() == 0 {
        0
    } else {
        kind_count(nodes.drop_last(), t) + if nodes.last().node_type@ == t { 1nat } else { 0nat }
    }
}

/// One "- [type xN]" line per node type.
pub open spec fn kind_lines(ks: Seq<Seq<char>>, nodes: Seq<UnifiedNode>) -> Seq<char>
    decreases ks.len(),
{
    if ks.len() == 0 {
        Seq::empty()
    } else {
        kind_lines(ks.drop_last(), nodes) + "- ["@ + ks.last() + " x"@ + decimal(kind_count(nodes, ks.last()))
            + "]\n"@
    }
}

/// Ten times the complexity score: a node counts one, a connection one and a half.
pub open spec fn score_tenths(bp: UnifiedBlueprint) -> nat {
    10 * bp.nodes@.len() + 15 * bp.connections@.len()
}

pub open spec fn hint_lines(bp: UnifiedBlueprint) -> Seq<char> {
    let a = if score_tenths(bp) > 500 {
        "- ⚠️ **High Complexity:** Consider splitting this blueprint into smaller sub-flows.\n"@
    } else {
        Seq::empty()
    };
    let b = if bp.variables.entries@.len() > 20 {
        "- ⚠️ **State Heavy:** Too many local variables. Consider using Global State.\n"@
    } else {
        Seq::empty()
    };
    let c = if entry_count(bp.nodes@) > 5 {
        "- ℹ️ **Multi-Trigger:** This blueprint handles too many events. Isolate by event type?\n"@
    } else {
        Seq::empty()
    };
    if a + b + c == Seq::<char>::empty() {
        "*No obvious optimizations detected.*\n"@
    } else {
        a + b + c
    }
}

/// The whole report.
pub open spec fn report(bp: UnifiedBlueprint) -> Seq<char> {
    let s = score_tenths(bp);
    "# Optimization Report: "@ + bp.id@ + "\n- **Nodes:** "@ + decimal(bp.nodes@.len()) + "\n- **Connections:** "@
        + decimal(bp.connections@.len()) + "\n- **Variables:** "@ + decimal(bp.variables.entries@.len())
        + "\n- **Complexity Score:** "@ + decimal(s / 10) + "."@ + decimal(s % 10) + "\n\n## Entry Points\n"@
        + (if entry_count(bp.nodes@) == 0 {
        "*No clear entry points found.*\n"@
    } else {
        entry_lines(bp.nodes@)
    }) + "\n## Semantic Flow\n"@ + kind_lines(kinds(bp.nodes@), bp.nodes@) + "\n## AI Split Candidates\n"@
        + hint_lines(bp)
}

proof fn lemma_count_absent(nodes: Seq<UnifiedNode>, t: Seq<char>)
    requires
        !kinds(nodes).contains(t),
    ensures
        kind_count(nodes, t) == 0,
    decreases nodes.len(),
{
    if nodes.len() > 0 {
        let prev = kinds(nodes.drop_last());
        let ty = nodes.last().node_type@;
        if prev.contains(t) {
            if !prev.contains(ty) {
                let j = choose|j: int| 0 <= j < prev.len() && prev[j] == t;
                assert(prev.push(ty)[j] == t);
            }
        }
        if ty == t {
            if !prev.contains(ty) {
                assert(prev.push(ty)[prev.len() as int] == t);
            }
        }
        lemma_count_absent(nodes.drop_last(), t);
    }
}

proof fn lemma_count_bound(nodes: Seq<UnifiedNode>, t: Seq<char>)
    ensures
        kind_count(nodes, t) <= nodes.len(),
    decreases nodes.len(),
{
    if nodes.len() > 0 {
        lemma_count_bound(nodes.drop_last(), t);
    }
}

/// Builds optimization reports on blueprints.
pub struct BundleAnalyzer;

impl BundleAnalyzer {
    /// The report on `blueprint`.
    pub fn analyze(blueprint: &UnifiedBlueprint) -> (r: String)
        requires
            blueprint.nodes@.len() <= u32::MAX,
            blueprint.connections@.len() <= u32::MAX,
        ensures
            r@ == report(*blueprint),
    {
        let nodes = &blueprint.nodes;
        let ghost ns = nodes@;
        let nn = nodes.len() as u64;
        let nc = blueprint.connections.len() as u64;
        let nv = blueprint.variables.entries.len() as u64;
        let mut out = owned("# Optimization Report: ");
        out.append(blueprint.id.as_str());
        out.append("\n- **Nodes:** ");
        push_decimal(&mut out, nn);
        out.append("\n- **Connections:** ");
        push_decimal(&mut out, nc);
        out.append("\n- **Variables:** ");
        push_decimal(&mut out, nv);
        out.append("\n- **Complexity Score:** ");
        let score = 10 * nn + 15 * nc;
        push_decimal(&mut out, score / 10);
        out.append(".");
        push_decimal(&mut out, score % 10);
        out.append("\n\n## Entry Points\n");
        let ghost head = out@;
        let mut lines = String::new();
        let mut entries: u64 = 0;
        let mut i: usize = 0;
        proof {
            assert(ns.subrange(0, 0) =~= Seq::<UnifiedNode>::empty());
        }
        while i < nodes.len()
            invariant
                ns == nodes@,
                i <= ns.len(),
                ns.len() <= u32::MAX,
                lines@ == entry_lines(ns.subrange(0, i as int)),
                entries == entry_count(ns.subrange(0, i as int)),
                entries <= i,
            decreases ns.len() - i,
        {
            proof {
                assert(ns.subrange(0, i + 1).drop_last() =~= ns.subrange(0, i as int));
            }
            let n = &nodes[i];
            let t = n.node_type.as_str();
            if text_has_part(t, "trigger") || str_eq(t, "on_load") || str_eq(t, "on_click") {
                lines.append("- `");
                lines.append(t);
                lines.append("` (ID: ");
                lines.append(n.id.as_str());
                lines.append(")\n");
                entries = entries + 1;
            }
            proof {
                assert(lines@ =~= entry_lines(ns.subrange(0, i + 1)));
            }
            i = i + 1;
        }
        proof {
            assert(ns.subrange(0, ns.len() as int) =~= ns);
        }
        if entries == 0 {
            out.append("*No clear entry points found.*\n");
        } else {
            out.append(lines.as_str());
        }
        out.append("\n## Semantic Flow\n");
        let mut kinds_seen: Vec<String> = Vec::new();
        let mut counts: Vec<u64> = Vec::new();
        let mut i: usize = 0;
        proof {
            assert(crate::document::strings_view(kinds_seen@) =~= kinds(ns.subrange(0, 0)));
        }
        while i < nodes.len()
            invariant
                ns == nodes@,
                i <= ns.len(),
                ns.len() <= u32::MAX,
                crate::document::strings_view(kinds_seen@) == kinds(ns.subrange(0, i as int)),
                crate::document::strings_view(kinds_seen@).no_duplicates(),
                counts@.len() == kinds_seen@.len(),
                forall|k: int|
                    0 <= k < counts@.len() ==> #[trigger] counts@[k] == kind_count(ns.subrange(0, i as int), kinds_seen@[k]@),
            decreases ns.len() - i,
        {
            let ghost pre = ns.subrange(0, i as int);
            let ghost post = ns.subrange(0, i + 1);
            proof {
                assert(post.drop_last() =~= pre);
            }
            let t = &nodes[i].node_type;
            let found = crate::document::position_of(&kinds_seen, t.as_str());
            match found {
                Some(k) => {
                    proof {
                        lemma_count_bound(pre, t@);
                    }
                    let c = counts[k];
                    counts.set(k, c + 1);
                    proof {
                        assert forall|q: int| 0 <= q < counts@.len() implies #[trigger] counts@[q] == kind_count(post, kinds_seen@[q]@) by {
                            assert(kind_count(post, kinds_seen@[q]@) == kind_count(pre, kinds_seen@[q]@) + if t@ == kinds_seen@[q]@ { 1nat } else { 0nat });
                            assert(crate::document::strings_view(kinds_seen@)[k as int] == kinds_seen@[k as int]@);
                            assert(crate::document::strings_view(kinds_seen@)[q] == kinds_seen@[q]@);
                        }
                    }
                },
                None => {
                    proof {
                        lemma_count_absent(pre, t@);
                    }
                    let ghost before = kinds_seen@;
                    let tc = t.clone();
                    proof {
                        crate::document::lemma_sv_push(kinds_seen@, tc);
                    }
                    kinds_seen.push(tc);
                    counts.push(1);
                    proof {
                        assert(crate::document::strings_view(kinds_seen@) =~= crate::document::strings_view(before).push(t@));
                        assert forall|q: int| 0 <= q < counts@.len() implies #[trigger] counts@[q] == kind_count(post, kinds_seen@[q]@) by {
                            if q < before.len() {
                                assert(crate::document::strings_view(before)[q] == before[q]@);
                                assert(before[q]@ != t@);
                            }
                        }
                    }
                },
            }
            i = i + 1;
        }
        proof {
            assert(ns.subrange(0, ns.len() as int) =~= ns);
        }
        let ghost ks = crate::document::strings_view(kinds_seen@);
        let mut g: usize = 0;
        let ghost flow_start = out@;
        proof {
            assert(ks.subrange(0, 0) =~= Seq::<Seq<char>>::empty());
            assert(out@ =~= flow_start + kind_lines(ks.subrange(0, 0), ns));
        }
        while g < kinds_seen.len()
            invariant
                ks == crate::document::strings_view(kinds_seen@),
                g <= kinds_seen@.len(),
                counts@.len() == kinds_seen@.len(),
                forall|k: int| 0 <= k < counts@.len() ==> #[trigger] counts@[k] == kind_count(ns, kinds_seen@[k]@),
                out@ == flow_start + kind_lines(ks.subrange(0, g as int), ns),
            decreases kinds_seen@.len() - g,
        {
            out.append("- [");
            out.append(kinds_seen[g].as_str());
            out.append(" x");
            push_decimal(&mut out, counts[g]);
            out.append("]\n");
            proof {
                assert(ks.subrange(0, g + 1).drop_last() =~= ks.subrange(0, g as int));
                assert(ks[g as int] == kinds_seen@[g as int]@);
                assert(out@ =~= flow_start + kind_lines(ks.subrange(0, g + 1), ns));
            }
            g = g + 1;
        }
        proof {
            assert(ks.subrange(0, ks.len() as int) =~= ks);
        }
        out.append("\n## AI Split Candidates\n");
        let mut hints = String::new();
        if score > 500 {
            hints.append("- ⚠️ **High Complexity:** Consider splitting this blueprint into smaller sub-flows.\n");
        }
        if nv > 20 {
            hints.append("- ⚠️ **State Heavy:** Too many local variables. Consider using Global State.\n");
        }
        if entries > 5 {
            hints.append("- ℹ️ **Multi-Trigger:** This blueprint handles too many events. Isolate by event type?\n");
        }
        if hints.unicode_len() == 0 {
            out.append("*No obvious optimizations detected.*\n");
        } else {
            out.append(hints.as_str());
        }
        proof {
            let s2 = score_tenths(*blueprint);
            assert(score == s2);
            let a = if s2 > 500 { "- ⚠️ **High Complexity:** Consider splitting this blueprint into smaller sub-flows.\n"@ } else { Seq::<char>::empty() };
            let b = if blueprint.variables.entries@.len() > 20 { "- ⚠️ **State Heavy:** Too many local variables. Consider using Global State.\n"@ } else { Seq::<char>::empty() };
            let c = if entry_count(ns) > 5 { "- ℹ️ **Multi-Trigger:** This blueprint handles too many events. Isolate by event type?\n"@ } else { Seq::<char>::empty() };
            assert(hints@ =~= a + b + c);
            assert(out@ =~= report(*blueprint));
        }
        out
    }
}

} // verus!

//! Properties of the service that hold across its operations.
use vstd::prelude::*;

use crate::certificates::{
    byte_len, spec_match_pattern, clean_hosts_prefix, normalized_host, spec_clean_hosts, host_pattern_error, valid_host_name, config_views, first_with_id, is_selected, match_at, no_id,
    rank_beats, CertificateConfig,
    MatchSpecificity,
    CertificateConfigView,
};
use crate::plan_parser::{
    url_error, collect_from, drop_blank_tail, first_request_line, parse_blocks, parts_scan, spec_parse,
    spec_parse_block, BlockDraws, BlockView, RequestView,
};
use crate::sorting::{lemma_newest_first, newest_first};
use crate::store::{
    summary_of, StoredPlanSummary, active_items, first_index, plan_ids, record_id, ExecutionQueueItem, QueueStatus, StoredPlan,
};
use crate::certificates::wrapping_next;
use crate::plan_paths::{clean_segments, join_with, spec_clean_path_segment, spec_clean_relative_path};
use crate::substitution::{runtime_result, runtime_subst, display_resolution, drawn_fits, is_dynamic_key, lemma_shaped_draw_fits, runtime_resolution};
use crate::text::{
    ascii_lower, dec_nat, find, is_ws, lemma_trim_end_shape, lemma_trim_start_shape, split, trim, trim_end,
    trim_end_char, trim_start, trim_start_char,
};
use crate::error::ErrorKind;
use crate::execution::{
    count_ok, check_lines, diagnostics_lines, error_lines, flat, log_lines, mtls_lines, resolve_headers_spec,
    result_head, result_lines, script_log_lines, spec_resolve_request, ExecutableRequestView,
    ExecutionReport, ExecutionResult, RuntimeDraws,
};

verus! {

// ---------------------------------------------------------------------------
// Choosing a client certificate

/// The pattern a host selects outranks every other match: an exact match beats a
/// wildcard, a longer wildcard suffix beats a shorter one, and between equal matches
/// the earlier certificate wins.
pub proof fn law_selected_match_ranks_first(
    certs: Seq<CertificateConfig>,
    host: Seq<char>,
    i: int,
    j: int,
    i2: int,
    j2: int,
)
    requires
        is_selected(certs, host, i, j),
        match_at(certs, host, i2, j2) is Some,
    ensures
        match_at(certs, host, i2, j2)->0.exact ==> match_at(certs, host, i, j)->0.exact,
        match_at(certs, host, i2, j2)->0.exact == match_at(certs, host, i, j)->0.exact
            ==> match_at(certs, host, i2, j2)->0.suffix_len <= match_at(
            certs,
            host,
            i,
            j,
        )->0.suffix_len,
        match_at(certs, host, i2, j2)->0.exact == match_at(certs, host, i, j)->0.exact
            && match_at(certs, host, i2, j2)->0.suffix_len == match_at(
            certs,
            host,
            i,
            j,
        )->0.suffix_len ==> i <= i2,
{
    if i2 != i || j2 != j {
        assert(!rank_beats(match_at(certs, host, i2, j2)->0, i2, match_at(certs, host, i, j)->0, i));
    }
}

/// Outranking is a strict order: no match outranks itself, of two matches at most
/// one outranks the other, and a match that outranks one outranking a third
/// outranks that third too.
pub proof fn law_rank_is_strict_order(
    a: MatchSpecificity,
    ai: int,
    b: MatchSpecificity,
    bi: int,
    c: MatchSpecificity,
    ci: int,
)
    ensures
        !rank_beats(a, ai, a, ai),
        rank_beats(a, ai, b, bi) ==> !rank_beats(b, bi, a, ai),
        rank_beats(a, ai, b, bi) && rank_beats(b, bi, c, ci) ==> rank_beats(a, ai, c, ci),
{
}

/// Whether `h` is a DNS-style host name: ASCII letters, digits, `.` and `-` only,
/// not empty, and no dot at either end or two dots in a row.
pub open spec fn dns_style_name(h: Seq<char>) -> bool {
    &&& h.len() > 0
    &&& forall|i: int|
        0 <= i < h.len() ==> {
            let c = #[trigger] h[i];
            ('a' <= c && c <= 'z') || ('A' <= c && c <= 'Z') || ('0' <= c && c <= '9') || c
                == '.' || c == '-'
        }
    &&& h[0] != '.'
    &&& h[h.len() - 1] != '.'
    &&& forall|i: int| 0 <= i < h.len() - 1 ==> !(#[trigger] h[i] == '.' && h[i + 1] == '.')
}

/// The host names a certificate may name are exactly the DNS-style names; such a
/// name is accepted as a host pattern, and so is `*.` followed by it.
pub proof fn law_dns_style_host_names_are_accepted(h: Seq<char>)
    ensures
        valid_host_name(h) <==> dns_style_name(h),
        dns_style_name(h) ==> host_pattern_error(h) is None,
        dns_style_name(h) ==> host_pattern_error(seq!['*', '.'] + h) is None,
{
    let dd = seq!['.', '.'];
    crate::text::lemma_find_from(h, dd, 0);
    if let Some(k) = find(h, dd) {
        assert(h.subrange(k, k + 2) == dd);
        assert(h[k] == h.subrange(k, k + 2)[0] && h[k + 1] == h.subrange(k, k + 2)[1]);
    } else {
        assert forall|i: int| 0 <= i < h.len() - 1 implies !(#[trigger] h[i] == '.' && h[i + 1]
            == '.') by {
            if h[i] == '.' && h[i + 1] == '.' {
                assert(h.subrange(i, i + 2) =~= dd);
                assert(crate::text::occurs_at(h, dd, i));
            }
        }
    }
    if h.len() > 0 {
        assert(h.last() == h[h.len() - 1]);
    }
    if dns_style_name(h) {
        assert(!h.contains('*')) by {
            if h.contains('*') {
                let j = choose|j: int| 0 <= j < h.len() && h[j] == '*';
                assert(dns_style_name(h));
                let c = h[j];
                assert(('a' <= c && c <= 'z') || ('A' <= c && c <= 'Z') || ('0' <= c && c <= '9')
                    || c == '.' || c == '-');
            }
        }
        assert(!seq!['*', '.'].is_prefix_of(h)) by {
            if seq!['*', '.'].is_prefix_of(h) {
                assert(h[0] == '*');
            }
        }
        let w = seq!['*', '.'] + h;
        assert(seq!['*', '.'].is_prefix_of(w));
        assert(w.skip(2) =~= h);
    }
}

proof fn lemma_dns_style_lowered(h: Seq<char>)
    requires
        dns_style_name(h),
    ensures
        normalized_host(h) == ascii_lower(h),
        dns_style_name(ascii_lower(h)),
{
    assert(!is_ws(h[0]));
    assert(!is_ws(h[h.len() - 1]));
    assert(h.last() == h[h.len() - 1]);
    lemma_trim_keeps_bare(h);
    assert(trim_end_char(h, '.') == h);
    let l = ascii_lower(h);
    assert forall|i: int| 0 <= i < l.len() implies {
        let c = #[trigger] l[i];
        ('a' <= c && c <= 'z') || ('A' <= c && c <= 'Z') || ('0' <= c && c <= '9') || c == '.'
            || c == '-'
    } by {
        let c = h[i];
        assert(l[i] == crate::text::ascii_lower_char(c));
        if 'A' <= c && c <= 'Z' {
            assert(l[i] as u32 == (c as u32) + 32);
        }
    }
    assert forall|i: int| 0 <= i < l.len() - 1 implies !(#[trigger] l[i] == '.' && l[i + 1]
        == '.') by {
        assert(l[i] == crate::text::ascii_lower_char(h[i]));
        assert(l[i + 1] == crate::text::ascii_lower_char(h[i + 1]));
        if 'A' <= h[i] && h[i] <= 'Z' {
            assert(l[i] as u32 == (h[i] as u32) + 32);
        }
        if 'A' <= h[i + 1] && h[i + 1] <= 'Z' {
            assert(l[i + 1] as u32 == (h[i + 1] as u32) + 32);
        }
    }
    assert(l[0] == crate::text::ascii_lower_char(h[0]));
    assert(l[l.len() - 1] == crate::text::ascii_lower_char(h[h.len() - 1]));
    if 'A' <= h[0] && h[0] <= 'Z' {
        assert(l[0] as u32 == (h[0] as u32) + 32);
    }
    if 'A' <= h[h.len() - 1] && h[h.len() - 1] <= 'Z' {
        assert(l[l.len() - 1] as u32 == (h[h.len() - 1] as u32) + 32);
    }
}

proof fn lemma_wildcard_normalized(s: Seq<char>)
    requires
        dns_style_name(s),
        ascii_lower(s) == s,
    ensures
        normalized_host(seq!['*', '.'] + s) == seq!['*', '.'] + s,
{
    let w = seq!['*', '.'] + s;
    assert(w[0] == '*');
    assert(w.last() == s[s.len() - 1]);
    assert(!is_ws(w.last()));
    lemma_trim_keeps_bare(w);
    assert(trim_end_char(w, '.') == w);
    assert forall|i: int| 0 <= i < w.len() implies #[trigger] crate::text::ascii_lower_char(w[i])
        == w[i] by {
        if i >= 2 {
            assert(w[i] == s[i - 2]);
            assert(ascii_lower(s)[i - 2] == crate::text::ascii_lower_char(s[i - 2]));
        }
    }
    assert(ascii_lower(w) =~= w);
}

/// A wildcard pattern `*.s` (with `s` a lowercase DNS-style name) matches, as a
/// wildcard over `s`, every host that is one label (not empty, without dots) then
/// `.s`; and every host it matches other than `*.s` itself is of that form.
pub proof fn law_wildcards_match_exactly_one_label(host: Seq<char>, label: Seq<char>, s: Seq<char>)
    requires
        dns_style_name(s),
        ascii_lower(s) == s,
    ensures
        label.len() > 0 && !label.contains('.') && label != seq!['*'] ==> spec_match_pattern(
            label + seq!['.'] + s,
            seq!['*', '.'] + s,
        ) == Some(MatchSpecificity { exact: false, suffix_len: byte_len(s) }),
        spec_match_pattern(host, seq!['*', '.'] + s) is Some && host != seq!['*', '.'] + s ==> {
            &&& host.len() > s.len() + 1
            &&& host.skip(host.len() - s.len() - 1) == seq!['.'] + s
            &&& !host.take(host.len() - s.len() - 1).contains('.')
        },
{
    lemma_wildcard_normalized(s);
    let w = seq!['*', '.'] + s;
    assert(seq!['*', '.'].is_prefix_of(w));
    assert(w.skip(2) =~= s);
    let dotted = seq!['.'] + s;
    if label.len() > 0 && !label.contains('.') && label != seq!['*'] {
        let h = label + seq!['.'] + s;
        assert(h =~= label + dotted);
        assert(dotted.is_suffix_of(h)) by {
            assert(h.subrange(h.len() - dotted.len(), h.len() as int) =~= dotted);
        }
        assert(h.take(h.len() - dotted.len()) =~= label);
        if h == w {
            assert(label[0] == h[0]);
            if label.len() > 1 {
                assert(label[1] == h[1]);
                assert(h[1] == w[1]);
                assert(label.contains('.'));
            } else {
                assert(label =~= seq!['*']);
            }
        }
    }
    if spec_match_pattern(host, w) is Some && host != w {
        assert(dotted.is_suffix_of(host));
        assert(host.skip(host.len() - s.len() - 1) =~= host.subrange(
            host.len() - dotted.len(),
            host.len() as int,
        ));
    }
}

proof fn lemma_dns_style_hosts_prefix(hosts: Seq<Seq<char>>, n: int)
    requires
        0 <= n <= hosts.len(),
        forall|k: int| 0 <= k < hosts.len() ==> dns_style_name(#[trigger] hosts[k]),
    ensures
        clean_hosts_prefix(hosts, n) == Ok::<Seq<Seq<char>>, (ErrorKind, Seq<char>)>(
            hosts.take(n).map_values(|h: Seq<char>| ascii_lower(h)),
        ),
    decreases n,
{
    if n > 0 {
        lemma_dns_style_hosts_prefix(hosts, n - 1);
        let h = hosts[n - 1];
        lemma_dns_style_lowered(h);
        law_dns_style_host_names_are_accepted(ascii_lower(h));
        assert(hosts.take(n).map_values(|h: Seq<char>| ascii_lower(h)) =~= hosts.take(n - 1).map_values(
            |h: Seq<char>| ascii_lower(h),
        ).push(ascii_lower(h)));
    } else {
        assert(hosts.take(0).map_values(|h: Seq<char>| ascii_lower(h)) =~= Seq::<Seq<char>>::empty());
    }
}

/// A certificate's host patterns that are all DNS-style names are accepted, each
/// kept in ASCII lowercase, in order.
pub proof fn law_dns_style_hosts_are_cleaned(hosts: Seq<Seq<char>>)
    requires
        hosts.len() > 0,
        forall|k: int| 0 <= k < hosts.len() ==> dns_style_name(#[trigger] hosts[k]),
    ensures
        spec_clean_hosts(hosts) == Ok::<Seq<Seq<char>>, (ErrorKind, Seq<char>)>(
            hosts.map_values(|h: Seq<char>| ascii_lower(h)),
        ),
{
    lemma_dns_style_hosts_prefix(hosts, hosts.len() as int);
    assert(hosts.take(hosts.len() as int) =~= hosts);
}

// ---------------------------------------------------------------------------
// Reading back what was written

/// A record appended under an id no other record has is the one that id finds.
pub proof fn law_created_certificate_is_found(certs: Seq<CertificateConfig>, c: CertificateConfig)
    requires
        no_id(certs, c.id@),
    ensures
        first_with_id(certs.push(c), c.id@, certs.len() as int),
{
    assert forall|j: int| 0 <= j < certs.len() implies #[trigger] certs.push(c)[j].id@ != c.id@ by {
        assert(certs.push(c)[j] == certs[j]);
    }
}

/// Once the only record with an id is removed, no record has that id.
pub proof fn law_deleted_certificate_is_gone(certs: Seq<CertificateConfig>, id: Seq<char>, k: int)
    requires
        first_with_id(certs, id, k),
        forall|a: int, b: int|
            0 <= a < b < certs.len() ==> #[trigger] certs[a].id@ != #[trigger] certs[b].id@,
    ensures
        no_id(certs.remove(k), id),
{
    assert forall|j: int| 0 <= j < certs.remove(k).len() implies #[trigger] certs.remove(k)[j].id@
        != id by {
        if j < k {
            assert(certs.remove(k)[j] == certs[j]);
        } else {
            assert(certs.remove(k)[j] == certs[j + 1]);
            assert(certs[k].id@ != certs[j + 1].id@);
        }
    }
}

/// A plan saved under an id no saved plan has is the one that id finds.
pub proof fn law_saved_plan_is_found(plans: Seq<StoredPlan>, p: StoredPlan)
    requires
        !plan_ids(plans).contains(p.id@),
    ensures
        first_index(plan_ids(plans.push(p)), p.id@) == Some(plans.len() as int),
{
    let ids = plan_ids(plans.push(p));
    assert(ids.drop_last() =~= plan_ids(plans));
    lemma_not_found(plan_ids(plans), p.id@);
}

proof fn lemma_not_found(ids: Seq<Seq<char>>, id: Seq<char>)
    requires
        !ids.contains(id),
    ensures
        first_index(ids, id) is None,
    decreases ids.len(),
{
    if ids.len() > 0 {
        assert(!ids.drop_last().contains(id)) by {
            if ids.drop_last().contains(id) {
                let k = choose|k: int| 0 <= k < ids.drop_last().len() && ids.drop_last()[k] == id;
                assert(ids[k] == id);
            }
        }
        lemma_not_found(ids.drop_last(), id);
        assert(ids[ids.len() - 1] == ids.last());
    }
}

proof fn lemma_found_contains(ids: Seq<Seq<char>>, id: Seq<char>)
    requires
        first_index(ids, id) is None,
    ensures
        !ids.contains(id),
    decreases ids.len(),
{
    if ids.len() > 0 {
        lemma_found_contains(ids.drop_last(), id);
        if ids.contains(id) {
            let k = choose|k: int| 0 <= k < ids.len() && ids[k] == id;
            if k < ids.len() - 1 {
                assert(ids.drop_last()[k] == id);
            }
        }
    }
}

/// Once the only saved plan with an id is removed, that id finds nothing.
pub proof fn law_deleted_plan_is_gone(plans: Seq<StoredPlan>, id: Seq<char>, k: int)
    requires
        first_index(plan_ids(plans), id) == Some(k),
        plan_ids(plans).no_duplicates(),
    ensures
        first_index(plan_ids(plans.remove(k)), id) is None,
{
    let ids = plan_ids(plans);
    let rest = plan_ids(plans.remove(k));
    lemma_first_index_shape(ids, id);
    assert(!rest.contains(id)) by {
        if rest.contains(id) {
            let j = choose|j: int| 0 <= j < rest.len() && rest[j] == id;
            if j < k {
                assert(rest[j] == ids[j]);
            } else {
                assert(rest[j] == ids[j + 1]);
                assert(ids[k] == ids[j + 1]);
            }
        }
    }
    lemma_not_found(rest, id);
}

proof fn lemma_first_index_shape(ids: Seq<Seq<char>>, id: Seq<char>)
    ensures
        first_index(ids, id) matches Some(k) ==> 0 <= k < ids.len() && ids[k] == id,
    decreases ids.len(),
{
    if ids.len() > 0 {
        lemma_first_index_shape(ids.drop_last(), id);
    }
}

/// Saving a plan under a free id, updating a plan in place, and removing one keep
/// saved plans' ids distinct.
pub proof fn law_plan_ids_stay_distinct(plans: Seq<StoredPlan>, p: StoredPlan, k: int)
    requires
        plan_ids(plans).no_duplicates(),
    ensures
        !plan_ids(plans).contains(p.id@) ==> plan_ids(plans.push(p)).no_duplicates(),
        0 <= k < plans.len() && p.id == plans[k].id ==> plan_ids(plans.update(k, p)).no_duplicates(),
        0 <= k < plans.len() ==> plan_ids(plans.remove(k)).no_duplicates(),
{
    let ids = plan_ids(plans);
    if !ids.contains(p.id@) {
        let pushed = plan_ids(plans.push(p));
        assert forall|a: int, b: int| 0 <= a < pushed.len() && 0 <= b < pushed.len() && a != b implies pushed[a]
            != pushed[b] by {
            if a < plans.len() && b < plans.len() {
                assert(pushed[a] == ids[a]);
                assert(pushed[b] == ids[b]);
            } else if a < plans.len() {
                assert(pushed[a] == ids[a]);
            } else if b < plans.len() {
                assert(pushed[b] == ids[b]);
            }
        }
    }
    if 0 <= k < plans.len() && p.id == plans[k].id {
        assert(plan_ids(plans.update(k, p)) =~= ids);
    }
    if 0 <= k < plans.len() {
        let rest = plan_ids(plans.remove(k));
        assert forall|a: int, b: int| 0 <= a < rest.len() && 0 <= b < rest.len() && a != b implies rest[a]
            != rest[b] by {
            let ia = if a < k {
                a
            } else {
                a + 1
            };
            let ib = if b < k {
                b
            } else {
                b + 1
            };
            assert(rest[a] == ids[ia]);
            assert(rest[b] == ids[ib]);
        }
    }
}

// ---------------------------------------------------------------------------
// Ids

/// Ids made at the same time with different counter values differ.
pub proof fn law_record_ids_differ(prefix: Seq<char>, now_ms: i64, n: u64, m: u64)
    requires
        n != m,
    ensures
        record_id(prefix, now_ms, n) != record_id(prefix, now_ms, m),
{
    let head = prefix + seq!['-'] + crate::text::dec_int(now_ms as int) + seq!['-'];
    crate::text::lemma_dec_nat_injective(n as nat, m as nat);
    assert(record_id(prefix, now_ms, n) =~= head + dec_nat(n as nat));
    assert(record_id(prefix, now_ms, m) =~= head + dec_nat(m as nat));
    if record_id(prefix, now_ms, n) == record_id(prefix, now_ms, m) {
        assert(dec_nat(n as nat) =~= record_id(prefix, now_ms, n).skip(head.len() as int));
        assert(dec_nat(m as nat) =~= record_id(prefix, now_ms, m).skip(head.len() as int));
    }
}

/// Two ids made one after the other at the same time differ: the counter moves on.
pub proof fn law_consecutive_ids_differ(prefix: Seq<char>, now_ms: i64, c: u64)
    ensures
        record_id(prefix, now_ms, c) != record_id(prefix, now_ms, wrapping_next(c)),
{
    law_record_ids_differ(prefix, now_ms, c, wrapping_next(c));
}

// ---------------------------------------------------------------------------
// The execution queue

/// An item is listed as queued or running exactly when it is in the queue and is
/// queued or running: a finished item leaves the list.
pub proof fn law_queue_lists_active_items(q: Seq<ExecutionQueueItem>, x: ExecutionQueueItem)
    ensures
        active_items(q).contains(x) <==> q.contains(x) && (x.status == QueueStatus::Queued
            || x.status == QueueStatus::Running),
    decreases q.len(),
{
    if q.len() > 0 {
        law_queue_lists_active_items(q.drop_last(), x);
        let rest = active_items(q.drop_last());
        let tail = if q.last().status == QueueStatus::Queued || q.last().status
            == QueueStatus::Running {
            seq![q.last()]
        } else {
            Seq::empty()
        };
        assert(active_items(q) == rest + tail);
        if active_items(q).contains(x) {
            let k = choose|k: int| 0 <= k < active_items(q).len() && active_items(q)[k] == x;
            if k < rest.len() {
                assert(rest[k] == x);
                let m = choose|m: int| 0 <= m < q.drop_last().len() && q.drop_last()[m] == x;
                assert(q[m] == x);
            } else {
                assert(tail[k - rest.len()] == x);
                assert(q[q.len() - 1] == x);
            }
        }
        if q.contains(x) && (x.status == QueueStatus::Queued || x.status == QueueStatus::Running) {
            let m = choose|m: int| 0 <= m < q.len() && q[m] == x;
            if m < q.len() - 1 {
                assert(q.drop_last()[m] == x);
                let k = choose|k: int| 0 <= k < rest.len() && rest[k] == x;
                assert(active_items(q)[k] == x);
            } else {
                assert(active_items(q)[rest.len() as int] == x);
            }
        }
    } else {
        assert(active_items(q) =~= Seq::<ExecutionQueueItem>::empty());
    }
}

// ---------------------------------------------------------------------------
// Reading plans

/// The requests read from a plan's blocks are numbered 1, 2, ... in order.
pub proof fn law_requests_are_numbered_in_order(
    blocks: Seq<BlockView>,
    n: int,
    vars: Map<Seq<char>, Seq<char>>,
    ds: Seq<BlockDraws>,
)
    requires
        0 <= n <= usize::MAX,
    ensures
        parse_blocks(blocks, n, vars, ds) matches Ok((reqs, _)) ==> reqs.len() <= n && forall|k: int|
            0 <= k < reqs.len() ==> (#[trigger] reqs[k]).id == k + 1,
    decreases n,
{
    if n > 0 {
        law_requests_are_numbered_in_order(blocks, n - 1, vars, ds);
        if let Ok((reqs, ws)) = parse_blocks(blocks, n - 1, vars, ds) {
            let id = (reqs.len() + 1) as usize;
            assert(id == reqs.len() + 1);
            if let Ok((r, w)) = crate::plan_parser::spec_parse_block(id, blocks[n - 1], vars, ds[n - 1]) {
                if let Some(req) = r {
                    assert(req.id == id);
                    let all = reqs.push(req);
                    assert forall|k: int| 0 <= k < all.len() implies (#[trigger] all[k]).id == k + 1 by {
                        if k < reqs.len() {
                            assert(all[k] == reqs[k]);
                        }
                    }
                }
            }
        }
    }
}

/// A plan that reads without error has at least one request, and its requests are
/// numbered 1, 2, ... in order.
pub proof fn law_parsed_plans_have_numbered_requests(
    name: Option<Seq<char>>,
    content: Seq<char>,
    given: Map<Seq<char>, Seq<char>>,
    ds: Seq<BlockDraws>,
)
    requires
        crate::plan_parser::scan_plan(content).blocks.len() <= usize::MAX,
    ensures
        spec_parse(name, content, given, ds) matches Ok(p) ==> p.requests.len() > 0 && forall|k: int|
            0 <= k < p.requests.len() ==> (#[trigger] p.requests[k]).id == k + 1,
{
    let st = crate::plan_parser::scan_plan(content);
    let vars = st.vars.union_prefer_right(given);
    law_requests_are_numbered_in_order(st.blocks, st.blocks.len() as int, vars, ds);
}

// ---------------------------------------------------------------------------
// Paths under the plans directory

/// Whether `p` is a path segment that stays where it is: not empty, not `.` or
/// `..`, without slashes or backslashes.
pub open spec fn plain_segment(p: Seq<char>) -> bool {
    p.len() > 0 && p != seq!['.'] && p != seq!['.', '.'] && !p.contains('/') && !p.contains('\\')
}

proof fn lemma_split_join(parts: Seq<Seq<char>>, c: char)
    requires
        parts.len() > 0,
        forall|k: int| 0 <= k < parts.len() ==> !(#[trigger] parts[k]).contains(c),
    ensures
        split(join_with(parts, seq![c]), c) == parts,
    decreases parts.len(),
{
    if parts.len() == 1 {
        crate::text::lemma_find_char(parts[0], c);
        assert(split(parts[0], c) =~= seq![parts[0]]);
        assert(parts =~= seq![parts[0]]);
    } else {
        let init = parts.drop_last();
        assert forall|k: int| 0 <= k < init.len() implies !(#[trigger] init[k]).contains(c) by {
            assert(init[k] == parts[k]);
        }
        lemma_split_join(init, c);
        crate::text::lemma_split_concat(join_with(init, seq![c]), parts.last(), c);
        crate::text::lemma_find_char(parts.last(), c);
        assert(!parts.last().contains(c)) by {
            assert(parts.last() == parts[parts.len() - 1]);
        }
        assert(split(parts.last(), c) =~= seq![parts.last()]);
        assert(parts =~= init + seq![parts.last()]);
    }
}

proof fn lemma_clean_segments_plain(segs: Seq<Seq<char>>, n: int)
    ensures
        clean_segments(segs, n) matches Ok(parts) ==> forall|k: int|
            0 <= k < parts.len() ==> plain_segment(#[trigger] parts[k]),
    decreases n,
{
    if n > 0 {
        lemma_clean_segments_plain(segs, n - 1);
        if let Ok(done) = clean_segments(segs, n - 1) {
            if let Some(Some(part)) = crate::plan_paths::segment_component(segs, n - 1) {
                if let Ok(p) = spec_clean_path_segment(part) {
                    let all = done.push(p);
                    assert forall|k: int| 0 <= k < all.len() implies plain_segment(#[trigger] all[k]) by {
                        if k < done.len() {
                            assert(all[k] == done[k]);
                        }
                    }
                }
            }
        }
    }
}

/// A cleaned path is made of plain segments joined with `/`: it names no parent
/// or current directory, and (being relative) does not start with `/`.
pub proof fn law_clean_paths_stay_inside(path: Seq<char>, require_file: bool)
    ensures
        spec_clean_relative_path(path, require_file) matches Ok(c) ==> c.len() == 0 || (forall|
            k: int,
        | 0 <= k < split(c, '/').len() ==> plain_segment(#[trigger] split(c, '/')[k])),
{
    let p = crate::plan_paths::stripped_path(path);
    if p.len() > 0 {
        let segs = split(p, '/');
        lemma_clean_segments_plain(segs, segs.len() as int);
        if let Ok(parts) = clean_segments(segs, segs.len() as int) {
            if parts.len() > 0 {
                lemma_split_join(parts, '/');
            } else {
                assert(join_with(parts, seq!['/']) =~= Seq::<char>::empty());
            }
        }
    }
}

proof fn lemma_trim_keeps_bare(s: Seq<char>)
    requires
        s.len() > 0,
        !is_ws(s[0]),
        !is_ws(s.last()),
    ensures
        trim(s) == s,
{
    assert(trim_start(s) == s);
    assert(trim_end(s) == s);
}

proof fn lemma_trim_idempotent(s: Seq<char>)
    ensures
        trim(trim(s)) == trim(s),
{
    let a = trim_start(s);
    let t = trim_end(a);
    lemma_trim_start_shape(s);
    lemma_trim_end_shape(a);
    if t.len() > 0 {
        assert(t[0] == a[0]);
        lemma_trim_keeps_bare(t);
    }
}

proof fn lemma_join_ends(parts: Seq<Seq<char>>, sep: Seq<char>)
    requires
        parts.len() > 0,
        forall|k: int| 0 <= k < parts.len() ==> (#[trigger] parts[k]).len() > 0,
    ensures
        join_with(parts, sep).len() > 0,
        join_with(parts, sep)[0] == parts[0][0],
        join_with(parts, sep).last() == parts.last().last(),
    decreases parts.len(),
{
    if parts.len() > 1 {
        let init = parts.drop_last();
        assert forall|k: int| 0 <= k < init.len() implies (#[trigger] init[k]).len() > 0 by {
            assert(init[k] == parts[k]);
        }
        lemma_join_ends(init, sep);
        assert(init[0] == parts[0]);
        assert(parts.last() == parts[parts.len() - 1]);
    }
}

proof fn lemma_clean_segments_trimmed(segs: Seq<Seq<char>>, n: int)
    ensures
        clean_segments(segs, n) matches Ok(parts) ==> forall|k: int|
            0 <= k < parts.len() ==> trim(#[trigger] parts[k]) == parts[k],
    decreases n,
{
    if n > 0 {
        lemma_clean_segments_trimmed(segs, n - 1);
        if let Ok(done) = clean_segments(segs, n - 1) {
            if let Some(Some(part)) = crate::plan_paths::segment_component(segs, n - 1) {
                if let Ok(p) = spec_clean_path_segment(part) {
                    lemma_trim_idempotent(part);
                    let all = done.push(p);
                    assert forall|k: int| 0 <= k < all.len() implies trim(#[trigger] all[k])
                        == all[k] by {
                        if k < done.len() {
                            assert(all[k] == done[k]);
                        }
                    }
                }
            }
        }
    }
}

proof fn lemma_clean_segments_of_clean(parts: Seq<Seq<char>>, n: int)
    requires
        0 <= n <= parts.len(),
        forall|k: int| 0 <= k < parts.len() ==> plain_segment(#[trigger] parts[k]),
        forall|k: int| 0 <= k < parts.len() ==> trim(#[trigger] parts[k]) == parts[k],
    ensures
        clean_segments(parts, n) == Ok::<Seq<Seq<char>>, (ErrorKind, Seq<char>)>(parts.take(n)),
    decreases n,
{
    if n > 0 {
        lemma_clean_segments_of_clean(parts, n - 1);
        let s = parts[n - 1];
        assert(plain_segment(s));
        assert(trim(s) == s);
        assert(parts.take(n - 1).push(s) =~= parts.take(n));
    } else {
        assert(parts.take(0) =~= Seq::<Seq<char>>::empty());
    }
}

/// Cleaning a cleaned path gives it back unchanged, and so does cleaning each of its
/// segments.
pub proof fn law_clean_paths_are_stable(path: Seq<char>, require_file: bool)
    ensures
        spec_clean_relative_path(path, require_file) matches Ok(c) ==> spec_clean_relative_path(
            c,
            require_file,
        ) == Ok::<Seq<char>, (ErrorKind, Seq<char>)>(c),
        spec_clean_relative_path(path, require_file) matches Ok(c) ==> c.len() == 0 || forall|
            k: int,
        |
            0 <= k < split(c, '/').len() ==> spec_clean_path_segment(#[trigger] split(c, '/')[k])
                == Ok::<Seq<char>, (ErrorKind, Seq<char>)>(split(c, '/')[k]),
{
    let p = crate::plan_paths::stripped_path(path);
    if let Ok(c) = spec_clean_relative_path(path, require_file) {
        if c.len() == 0 {
            assert(c =~= Seq::<char>::empty());
            assert(trim_start(c) == c);
            assert(trim_end(c) == c);
            assert(trim_start_char(c, '/') == c);
            assert(trim_end_char(c, '/') == c);
            assert(crate::plan_paths::stripped_path(c) == c);
            if require_file {
                // A required file path is never cleaned to nothing.
                if p.len() > 0 {
                    let segs = split(p, '/');
                    let parts = clean_segments(segs, segs.len() as int)->Ok_0;
                    if parts.len() > 0 {
                        lemma_clean_segments_plain(segs, segs.len() as int);
                        assert forall|k: int| 0 <= k < parts.len() implies (#[trigger] parts[k]).len()
                            > 0 by {
                            assert(plain_segment(parts[k]));
                        }
                        lemma_join_ends(parts, seq!['/']);
                    }
                }
            }
        } else {
            assert(p.len() > 0);
            let segs = split(p, '/');
            lemma_clean_segments_plain(segs, segs.len() as int);
            lemma_clean_segments_trimmed(segs, segs.len() as int);
            let parts = clean_segments(segs, segs.len() as int)->Ok_0;
            assert(c == join_with(parts, seq!['/']));
            if parts.len() == 0 {
                assert(join_with(parts, seq!['/']) =~= Seq::<char>::empty());
            }
            assert(parts.len() > 0);
            assert forall|k: int| 0 <= k < parts.len() implies (#[trigger] parts[k]).len() > 0 by {
                assert(plain_segment(parts[k]));
            }
            lemma_join_ends(parts, seq!['/']);
            let first = parts[0];
            let last = parts.last();
            assert(plain_segment(first));
            assert(plain_segment(last)) by {
                assert(last == parts[parts.len() - 1]);
            }
            assert(trim(first) == first);
            assert(trim(last) == last) by {
                assert(last == parts[parts.len() - 1]);
            }
            lemma_trim_start_shape(first);
            lemma_trim_end_shape(trim_start(first));
            assert(!is_ws(c[0])) by {
                assert(first.len() > 0);
                assert(trim_start(first).len() > 0) by {
                    assert(trim_end(trim_start(first)).len() <= trim_start(first).len());
                }
                assert(trim_end(trim_start(first))[0] == trim_start(first)[0]);
            }
            lemma_trim_end_shape(last);
            lemma_trim_start_shape(trim_end(last));
            assert(!is_ws(c.last())) by {
                lemma_trim_start_shape(last);
                lemma_trim_end_shape(trim_start(last));
                assert(trim_end(trim_start(last)).len() > 0);
            }
            assert(c[0] != '/') by {
                assert(c[0] == first[0]);
                assert(!first.contains('/'));
            }
            assert(c.last() != '/') by {
                assert(c.last() == last[last.len() - 1]);
                assert(!last.contains('/'));
            }
            lemma_trim_keeps_bare(c);
            assert(trim_start_char(c, '/') == c);
            assert(trim_end_char(c, '/') == c);
            assert(crate::plan_paths::stripped_path(c) == c);
            lemma_split_join(parts, '/');
            lemma_clean_segments_of_clean(parts, parts.len() as int);
            assert(parts.take(parts.len() as int) =~= parts);
            assert forall|k: int| 0 <= k < split(c, '/').len() implies spec_clean_path_segment(
                #[trigger] split(c, '/')[k],
            ) == Ok::<Seq<char>, (ErrorKind, Seq<char>)>(split(c, '/')[k]) by {
                assert(split(c, '/')[k] == parts[k]);
                assert(plain_segment(parts[k]));
                assert(trim(parts[k]) == parts[k]);
            }
        }
    }
}

// ---------------------------------------------------------------------------
// Variables

/// Variables given with a plan win over those its text sets.
pub proof fn law_given_variables_win(
    name: Option<Seq<char>>,
    content: Seq<char>,
    given: Map<Seq<char>, Seq<char>>,
    ds: Seq<BlockDraws>,
    key: Seq<char>,
)
    requires
        given.contains_key(key),
    ensures
        spec_parse(name, content, given, ds) matches Ok(p) ==> p.variables.contains_key(key)
            && p.variables[key] == given[key],
{
}

/// When a plan is read, a placeholder that no plan variable names but that is a
/// dynamic name is always filled, with a value of its shape.
pub proof fn law_dynamic_names_are_filled(
    key: Seq<char>,
    vars: Map<Seq<char>, Seq<char>>,
    drawn: Seq<char>,
)
    requires
        is_dynamic_key(key),
        !vars.contains_key(key),
    ensures
        display_resolution(key, vars, drawn) matches Some(v) && drawn_fits(key, v),
{
    lemma_shaped_draw_fits(key);
}

/// When a request runs, a placeholder is resolved by the first of: request
/// variables, globals, plan variables, a fresh dynamic value, the environment. A
/// dynamic value is always of the shape drawn for its name: a UUID's text for
/// `$uuid`, the decimal text of an `i64` for `$timestamp`.
pub proof fn law_runtime_resolution_order(
    key: Seq<char>,
    file_vars: Map<Seq<char>, Seq<char>>,
    globals: Map<Seq<char>, Seq<char>>,
    request_vars: Map<Seq<char>, Seq<char>>,
    env: Map<Seq<char>, Seq<char>>,
    drawn: Seq<char>,
)
    ensures
        request_vars.contains_key(key) ==> runtime_resolution(
            key,
            file_vars,
            globals,
            request_vars,
            env,
            drawn,
        ) == Some(request_vars[key]),
        !request_vars.contains_key(key) && globals.contains_key(key) ==> runtime_resolution(
            key,
            file_vars,
            globals,
            request_vars,
            env,
            drawn,
        ) == Some(globals[key]),
        !request_vars.contains_key(key) && !globals.contains_key(key) && file_vars.contains_key(key)
            ==> runtime_resolution(key, file_vars, globals, request_vars, env, drawn) == Some(
            file_vars[key],
        ),
        !request_vars.contains_key(key) && !globals.contains_key(key) && !file_vars.contains_key(
            key,
        ) && !is_dynamic_key(key) && !("$env."@.is_prefix_of(key) && env.contains_key(key.skip(5)))
            ==> runtime_resolution(key, file_vars, globals, request_vars, env, drawn) is None,
        !request_vars.contains_key(key) && !globals.contains_key(key) && !file_vars.contains_key(
            key,
        ) && is_dynamic_key(key) ==> match runtime_resolution(
            key,
            file_vars,
            globals,
            request_vars,
            env,
            drawn,
        ) {
            Some(v) => drawn_fits(key, v) && (drawn_fits(key, drawn) ==> v == drawn),
            None => false,
        },
{
    lemma_shaped_draw_fits(key);
}

// ---------------------------------------------------------------------------
// Resolving a request when it runs

proof fn lemma_resolved_headers(
    hs: Seq<(Seq<char>, Seq<char>)>,
    n: int,
    fv: Map<Seq<char>, Seq<char>>,
    gv: Map<Seq<char>, Seq<char>>,
    rv: Map<Seq<char>, Seq<char>>,
    env: Map<Seq<char>, Seq<char>>,
    d: Seq<Seq<Seq<char>>>,
)
    requires
        0 <= n <= hs.len(),
    ensures
        resolve_headers_spec(hs, n, fv, gv, rv, env, d) matches Ok(done) ==> {
            &&& done.len() == n
            &&& forall|k: int|
                0 <= k < n ==> #[trigger] done[k] == (
                    hs[k].0,
                    runtime_subst(hs[k].1, fv, gv, rv, env, d[k]),
                )
        },
        (forall|k: int| 0 <= k < n ==> #[trigger] runtime_result(hs[k].1, fv, gv, rv, env, d[k]) is Ok)
            ==> resolve_headers_spec(hs, n, fv, gv, rv, env, d) is Ok,
    decreases n,
{
    if n > 0 {
        lemma_resolved_headers(hs, n - 1, fv, gv, rv, env, d);
        if let Ok(done) = resolve_headers_spec(hs, n, fv, gv, rv, env, d) {
            let prev = resolve_headers_spec(hs, n - 1, fv, gv, rv, env, d)->Ok_0;
            assert forall|k: int| 0 <= k < n implies #[trigger] done[k] == (
                hs[k].0,
                runtime_subst(hs[k].1, fv, gv, rv, env, d[k]),
            ) by {
                if k < n - 1 {
                    assert(done[k] == prev[k]);
                }
            }
        }
        if forall|k: int| 0 <= k < n ==> #[trigger] runtime_result(hs[k].1, fv, gv, rv, env, d[k]) is Ok {
            assert(runtime_result(hs[n - 1].1, fv, gv, rv, env, d[n - 1]) is Ok);
        }
    }
}

/// When a request runs, its URL, each header value and its body are resolved alike:
/// each placeholder by `runtime_resolution` over the same request variables,
/// globals, plan variables, drawn values and environment; header names are kept.
/// The request resolves exactly when the URL resolves to a valid URL and every
/// header value and the body resolve.
pub proof fn law_request_parts_resolve_alike(
    req: ExecutableRequestView,
    fv: Map<Seq<char>, Seq<char>>,
    gv: Map<Seq<char>, Seq<char>>,
    rv: Map<Seq<char>, Seq<char>>,
    env: Map<Seq<char>, Seq<char>>,
    d: RuntimeDraws,
)
    ensures
        spec_resolve_request(req, fv, gv, rv, env, d) matches Ok(x) ==> {
            &&& x.method == req.method
            &&& x.url == runtime_subst(req.url, fv, gv, rv, env, d.url)
            &&& x.headers.len() == req.headers.len()
            &&& forall|k: int|
                0 <= k < req.headers.len() ==> #[trigger] x.headers[k] == (
                    req.headers[k].0,
                    runtime_subst(req.headers[k].1, fv, gv, rv, env, d.headers[k]),
                )
            &&& x.body == match req.body {
                Some(b) => Some(runtime_subst(b, fv, gv, rv, env, d.body)),
                None => None,
            }
        },
        (runtime_result(req.url, fv, gv, rv, env, d.url) matches Ok(u) && url_error(u) is None
            && (forall|k: int|
            0 <= k < req.headers.len() ==> #[trigger] runtime_result(
                req.headers[k].1,
                fv,
                gv,
                rv,
                env,
                d.headers[k],
            ) is Ok) && (req.body matches Some(b) ==> runtime_result(b, fv, gv, rv, env, d.body)
            is Ok)) ==> spec_resolve_request(req, fv, gv, rv, env, d) is Ok,
{
    lemma_resolved_headers(req.headers, req.headers.len() as int, fv, gv, rv, env, d.headers);
}

// ---------------------------------------------------------------------------
// Listing saved plans

/// Each entry of the plan listing (the saved plans' summaries, most recently
/// updated first) describes one saved plan: its id, name and path, the number of
/// requests and the number of warnings read from it, and its times.
pub proof fn law_listed_plans_count_their_requests(
    plans: Seq<StoredPlan>,
    listing: Seq<StoredPlanSummary>,
    i: int,
)
    requires
        listing == newest_first(plans.map_values(|p: StoredPlan| summary_of(p))),
        0 <= i < listing.len(),
    ensures
        exists|k: int|
            0 <= k < plans.len() && {
                &&& listing[i].id == (#[trigger] plans[k]).id
                &&& listing[i].name == plans[k].name
                &&& listing[i].path == plans[k].path
                &&& listing[i].request_count == plans[k].parsed.requests@.len()
                &&& listing[i].warning_count == plans[k].parsed.warnings@.len()
                &&& listing[i].created_at_ms == plans[k].created_at_ms
                &&& listing[i].updated_at_ms == plans[k].updated_at_ms
            },
{
    let all = plans.map_values(|p: StoredPlan| summary_of(p));
    lemma_newest_first(all);
    let s = listing[i];
    listing.to_multiset_ensures();
    all.to_multiset_ensures();
    assert(listing.contains(s));
    assert(listing.to_multiset().count(s) > 0);
    assert(listing.to_multiset() == all.to_multiset());
    assert(all.to_multiset().count(s) > 0);
    assert(all.contains(s));
    let k = choose|k: int| 0 <= k < all.len() && all[k] == s;
    assert(all[k] == summary_of(plans[k]));
}

// ---------------------------------------------------------------------------
// The log of a run

proof fn lemma_flat_contains(parts: Seq<Seq<Seq<char>>>, i: int, x: Seq<char>)
    requires
        0 <= i < parts.len(),
        parts[i].contains(x),
    ensures
        flat(parts).contains(x),
    decreases parts.len(),
{
    let f = flat(parts);
    let init = flat(parts.drop_last());
    if i == parts.len() - 1 {
        let k = choose|k: int| 0 <= k < parts[i].len() && parts[i][k] == x;
        assert(f[init.len() + k] == parts.last()[k]);
    } else {
        assert(parts.drop_last()[i] == parts[i]);
        lemma_flat_contains(parts.drop_last(), i, x);
        let k = choose|k: int| 0 <= k < init.len() && init[k] == x;
        assert(f[k] == init[k]);
    }
}

/// Every check of every request of a run has a line in the run's log, and the word
/// on it is `FAIL` when the check failed and `PASS` when it passed.
pub proof fn law_each_check_is_logged_with_its_outcome(report: ExecutionReport, i: int, j: int)
    requires
        0 <= i < report.results@.len(),
        0 <= j < report.results@[i].assertions@.len(),
    ensures
        log_lines(report).contains(
            "  "@ + (if report.results@[i].assertions@[j].passed {
                "PASS"@
            } else {
                "FAIL"@
            }) + " "@ + report.results@[i].assertions@[j].name@ + ": "@
                + report.results@[i].assertions@[j].message@,
        ),
{
    let r = report.results@[i];
    let a = r.assertions@[j];
    let line = "  "@ + (if a.passed {
        "PASS"@
    } else {
        "FAIL"@
    }) + " "@ + a.name@ + ": "@ + a.message@;
    let rl = result_lines(r);
    let head = seq![result_head(r)] + error_lines(r) + mtls_lines(r.mtls) + diagnostics_lines(r)
        + script_log_lines(r);
    assert(rl == head + check_lines(r));
    assert(check_lines(r)[j] == line);
    assert(rl[head.len() + j] == line);
    let parts = report.results@.map_values(|x: ExecutionResult| result_lines(x));
    assert(parts[i] == rl);
    lemma_flat_contains(parts, i, line);
    let all = log_lines(report);
    let k = choose|k: int| 0 <= k < flat(parts).len() && flat(parts)[k] == line;
    assert(all[4 + k] == flat(parts)[k]);
}

/// The number of passed requests of a report is the number of results that are ok.
pub proof fn law_passed_counts_the_ok_results(rs: Seq<ExecutionResult>)
    ensures
        count_ok(rs) == rs.filter(|r: ExecutionResult| r.ok).len(),
    decreases rs.len(),
{
    if rs.len() > 0 {
        law_passed_counts_the_ok_results(rs.drop_last());
        assert(rs =~= rs.drop_last().push(rs.last()));
        rs.drop_last().lemma_filter_push(rs.last(), |r: ExecutionResult| r.ok);
    } else {
        assert(rs.filter(|r: ExecutionResult| r.ok) =~= Seq::<ExecutionResult>::empty()) by {
            reveal(Seq::filter);
        }
    }
}

/// Every request of a run has a line in the run's log that starts with `FAIL` when
/// the request failed and with `PASS` when it passed, followed by its method, URL,
/// status (or `ERR`) and duration.
pub proof fn law_each_request_is_logged_with_its_outcome(report: ExecutionReport, i: int)
    requires
        0 <= i < report.results@.len(),
    ensures
        log_lines(report).contains(
            (if report.results@[i].ok {
                "PASS"@
            } else {
                "FAIL"@
            }) + " "@ + report.results@[i].method@ + " "@ + report.results@[i].url@ + " -> "@
                + match report.results@[i].status {
                Some(v) => dec_nat(v as nat),
                None => "ERR"@,
            } + " in "@ + dec_nat(report.results@[i].duration_ms as nat) + " ms"@,
        ),
{
    let r = report.results@[i];
    let rl = result_lines(r);
    assert(rl[0] == result_head(r));
    let parts = report.results@.map_values(|x: ExecutionResult| result_lines(x));
    assert(parts[i] == rl);
    lemma_flat_contains(parts, i, result_head(r));
    let all = log_lines(report);
    let k = choose|k: int| 0 <= k < flat(parts).len() && flat(parts)[k] == result_head(r);
    assert(all[4 + k] == flat(parts)[k]);
}

/// The lines kept of a body: all of them up to the last line that is not blank
/// (none if every line is blank); the lines dropped are all blank.
pub proof fn law_body_keeps_all_but_trailing_blank_lines(lines: Seq<Seq<char>>)
    ensures
        drop_blank_tail(lines).len() <= lines.len(),
        drop_blank_tail(lines) == lines.take(drop_blank_tail(lines).len() as int),
        drop_blank_tail(lines).len() > 0 ==> trim(drop_blank_tail(lines).last()).len() > 0,
        forall|i: int|
            drop_blank_tail(lines).len() <= i < lines.len() ==> trim(#[trigger] lines[i]).len()
                == 0,
    decreases lines.len(),
{
    if lines.len() > 0 && trim(lines.last()).len() == 0 {
        law_body_keeps_all_but_trailing_blank_lines(lines.drop_last());
        let k = drop_blank_tail(lines).len() as int;
        assert(lines.drop_last().take(k) =~= lines.take(k));
        assert forall|i: int| k <= i < lines.len() implies trim(#[trigger] lines[i]).len() == 0 by {
            if i < lines.len() - 1 {
                assert(lines[i] == lines.drop_last()[i]);
            }
        }
    } else {
        assert(lines.take(lines.len() as int) =~= lines);
    }
}

// ---------------------------------------------------------------------------
// The body of a request

/// Whether line `i` is passed over when the lines after a request line are read: it
/// belongs to a script, or is a script marker line (starting with `<` or `>`).
pub open spec fn passed_over(lines: Seq<Seq<char>>, masked: Set<int>, i: int) -> bool {
    masked.contains(i) || (trim(lines[i]).len() > 0 && (trim(lines[i])[0] == '>' || trim(
        lines[i],
    )[0] == '<'))
}

/// Whether line `i` is a blank line that is read (not passed over).
pub open spec fn blank_read_line(lines: Seq<Seq<char>>, masked: Set<int>, i: int) -> bool {
    !passed_over(lines, masked, i) && trim(lines[i]).len() == 0
}

/// The lines of `lines[lo..n]` that are not passed over, in order.
pub open spec fn read_lines(lines: Seq<Seq<char>>, masked: Set<int>, lo: int, n: int) -> Seq<
    Seq<char>,
>
    decreases n - lo,
{
    if n <= lo {
        Seq::empty()
    } else {
        read_lines(lines, masked, lo, n - 1) + if passed_over(lines, masked, n - 1) {
            Seq::<Seq<char>>::empty()
        } else {
            seq![lines[n - 1]]
        }
    }
}

/// Reading the lines after a request line: before the first blank line that is read
/// there is no body; after it, every line that is read (blank or not, whatever it
/// holds) is a body line, in order.
pub proof fn law_body_is_every_line_after_the_blank_line(
    lines: Seq<Seq<char>>,
    masked: Set<int>,
    id: nat,
    from: int,
    n: int,
)
    requires
        0 <= from <= n <= lines.len(),
    ensures
        (forall|i: int| from <= i < n ==> !blank_read_line(lines, masked, i)) ==> {
            &&& !parts_scan(lines, masked, id, from, n).in_body
            &&& parts_scan(lines, masked, id, from, n).body.len() == 0
        },
        forall|b: int|
            #![trigger blank_read_line(lines, masked, b)]
            from <= b < n && blank_read_line(lines, masked, b) && (forall|i: int|
                from <= i < b ==> !blank_read_line(lines, masked, i)) ==> {
                &&& parts_scan(lines, masked, id, from, n).in_body
                &&& parts_scan(lines, masked, id, from, n).body == read_lines(
                    lines,
                    masked,
                    b + 1,
                    n,
                )
            },
    decreases n - from,
{
    if n > from {
        law_body_is_every_line_after_the_blank_line(lines, masked, id, from, n - 1);
        if forall|i: int| from <= i < n ==> !blank_read_line(lines, masked, i) {
            assert(!blank_read_line(lines, masked, n - 1));
            assert(forall|i: int| from <= i < n - 1 ==> !blank_read_line(lines, masked, i));
        }
        assert forall|b: int|
            #![trigger blank_read_line(lines, masked, b)]
            from <= b < n && blank_read_line(lines, masked, b) && (forall|i: int|
                from <= i < b ==> !blank_read_line(lines, masked, i)) implies {
            &&& parts_scan(lines, masked, id, from, n).in_body
            &&& parts_scan(lines, masked, id, from, n).body == read_lines(lines, masked, b + 1, n)
        } by {
            if b == n - 1 {
                assert(forall|i: int| from <= i < n - 1 ==> !blank_read_line(lines, masked, i));
            } else {
                assert(blank_read_line(lines, masked, b));
            }
        }
    }
}

proof fn lemma_first_request_line_bounds(lines: Seq<Seq<char>>, masked: Set<int>, i: int)
    ensures
        first_request_line(lines, masked, i) matches Some(r) ==> i <= r < lines.len(),
    decreases lines.len() - i,
{
    if 0 <= i < lines.len() {
        lemma_first_request_line_bounds(lines, masked, i + 1);
    }
}

/// The `name: value` headers among `lines[lo..n]`: each line that is read, not blank,
/// not a comment (`#` or `//`), and holds a `:`, split at its first `:` and trimmed.
pub open spec fn header_lines(lines: Seq<Seq<char>>, masked: Set<int>, lo: int, n: int) -> Seq<
    (Seq<char>, Seq<char>),
>
    decreases n - lo,
{
    if n <= lo {
        Seq::empty()
    } else {
        let raw = lines[n - 1];
        let t = trim(raw);
        header_lines(lines, masked, lo, n - 1) + if passed_over(lines, masked, n - 1) || t.len()
            == 0 || t[0] == '#' || "//"@.is_prefix_of(t) {
            Seq::empty()
        } else {
            match find(raw, seq![':']) {
                Some(c) => seq![(trim(raw.take(c)), trim(raw.skip(c + 1)))],
                None => Seq::empty(),
            }
        }
    }
}

/// Reading the lines after a request line: the headers are the `name: value` lines
/// read before the first blank line that is read, in order; the body does not add
/// to them.
pub proof fn law_headers_are_the_lines_before_the_blank_line(
    lines: Seq<Seq<char>>,
    masked: Set<int>,
    id: nat,
    from: int,
    n: int,
)
    requires
        0 <= from <= n <= lines.len(),
    ensures
        (forall|i: int| from <= i < n ==> !blank_read_line(lines, masked, i)) ==> parts_scan(
            lines,
            masked,
            id,
            from,
            n,
        ).headers == header_lines(lines, masked, from, n),
        forall|b: int|
            #![trigger blank_read_line(lines, masked, b)]
            from <= b < n && blank_read_line(lines, masked, b) && (forall|i: int|
                from <= i < b ==> !blank_read_line(lines, masked, i)) ==> parts_scan(
                lines,
                masked,
                id,
                from,
                n,
            ).headers == header_lines(lines, masked, from, b),
    decreases n - from,
{
    if n > from {
        law_headers_are_the_lines_before_the_blank_line(lines, masked, id, from, n - 1);
        law_body_is_every_line_after_the_blank_line(lines, masked, id, from, n - 1);
        if forall|i: int| from <= i < n ==> !blank_read_line(lines, masked, i) {
            assert(!blank_read_line(lines, masked, n - 1));
            assert(forall|i: int| from <= i < n - 1 ==> !blank_read_line(lines, masked, i));
        }
        assert forall|b: int|
            #![trigger blank_read_line(lines, masked, b)]
            from <= b < n && blank_read_line(lines, masked, b) && (forall|i: int|
                from <= i < b ==> !blank_read_line(lines, masked, i)) implies parts_scan(
            lines,
            masked,
            id,
            from,
            n,
        ).headers == header_lines(lines, masked, from, b) by {
            if b == n - 1 {
                assert(forall|i: int| from <= i < n - 1 ==> !blank_read_line(lines, masked, i));
            } else {
                assert(blank_read_line(lines, masked, b));
            }
        }
    }
}

/// A request's raw body is every line read after the first blank line that follows
/// the request line, without trailing blank lines, joined with `\n`; its raw headers
/// are the `name: value` lines read between the request line and that blank line.
pub proof fn law_request_body_is_every_line_after_the_blank_line(
    id: usize,
    block: BlockView,
    vars: Map<Seq<char>, Seq<char>>,
    d: BlockDraws,
    r: int,
    b: int,
)
    requires
        first_request_line(
            block.lines,
            collect_from(block.lines, '<', id as nat, 0).masked.union(
                collect_from(block.lines, '>', id as nat, 0).masked,
            ),
            0,
        ) == Some(r),
        r < b < block.lines.len(),
        blank_read_line(
            block.lines,
            collect_from(block.lines, '<', id as nat, 0).masked.union(
                collect_from(block.lines, '>', id as nat, 0).masked,
            ),
            b,
        ),
        forall|i: int|
            r < i < b ==> !blank_read_line(
                block.lines,
                collect_from(block.lines, '<', id as nat, 0).masked.union(
                    collect_from(block.lines, '>', id as nat, 0).masked,
                ),
                i,
            ),
    ensures
        spec_parse_block(id, block, vars, d) matches Ok((Some(req), _)) ==> req.raw_body == {
            let body = drop_blank_tail(
                read_lines(
                    block.lines,
                    collect_from(block.lines, '<', id as nat, 0).masked.union(
                        collect_from(block.lines, '>', id as nat, 0).masked,
                    ),
                    b + 1,
                    block.lines.len() as int,
                ),
            );
            if body.len() == 0 {
                None
            } else {
                Some(join_with(body, seq!['\n']))
            }
        },
        spec_parse_block(id, block, vars, d) matches Ok((Some(req), _)) ==> req.raw_headers
            == header_lines(
            block.lines,
            collect_from(block.lines, '<', id as nat, 0).masked.union(
                collect_from(block.lines, '>', id as nat, 0).masked,
            ),
            r + 1,
            b,
        ),
{
    let lines = block.lines;
    let masked = collect_from(lines, '<', id as nat, 0).masked.union(
        collect_from(lines, '>', id as nat, 0).masked,
    );
    lemma_first_request_line_bounds(lines, masked, 0);
    law_body_is_every_line_after_the_blank_line(lines, masked, id as nat, r + 1, lines.len() as int);
    law_headers_are_the_lines_before_the_blank_line(lines, masked, id as nat, r + 1, lines.len() as int);
    assert(blank_read_line(lines, masked, b));
}

} // verus!

//! `/proc/net/dev`: the cumulative byte counters of the network interfaces
//! other than loopback, and their growth between two readings.
use std::time::Instant;

use vstd::prelude::*;

use crate::clock::now;
use crate::text::{
    chars_of, copy_range, eq_str, find_char, first_index, is_ws, join_fields, lemma_first_index_at,
    lemma_join_fields, lemma_trim_end_take, lemma_trim_start_skip, lines, lines_of, plain_field,
    string_of, string_views, trim, trim_end, trim_start, trimmed, u64_or_zero, u64_or_zero_of,
    views, words, words_of,
};

verus! {

/// Cumulative per-interface counters read from `/proc/net/dev`.
#[derive(Debug, Clone, Default)]
pub struct NetCounters {
    pub rx_bytes: u64,
    pub tx_bytes: u64,
    /// Names of included (non-loopback) interfaces.
    pub ifaces: Vec<String>,
}

/// The reading kept between two polls: the counters of the last reading,
/// `None` until one was taken, and when that was.
#[derive(Debug, Clone)]
pub struct NetSnapshot {
    pub counters: Option<NetCounters>,
    pub at: Instant,
}

impl Default for NetSnapshot {
    /// The state before the first reading: no counters yet.
    fn default() -> (r: Self)
        ensures
            r.counters is None,
    {
        NetSnapshot { counters: None, at: now() }
    }
}

/// `(interface, received bytes, transmitted bytes)` of one interface line
/// of `/proc/net/dev`: the trimmed name before the first colon, which must
/// not be `lo`, and the first and ninth of at least nine fields after it
/// (unreadable counters count as 0).
pub open spec fn net_line(line: Seq<char>) -> Option<(Seq<char>, u64, u64)> {
    let t = trim(line);
    match first_index(t, ':') {
        None => None,
        Some(c) => {
            let iface = trim(t.take(c));
            if iface == "lo"@ {
                None
            } else {
                let w = words(trim(t.skip(c + 1)));
                if w.len() < 9 {
                    None
                } else {
                    Some((iface, u64_or_zero(w[0]), u64_or_zero(w[8])))
                }
            }
        },
    }
}

/// Exact totals over interface lines.
pub struct NetSums {
    pub rx: nat,
    pub tx: nat,
    pub ifaces: Seq<Seq<char>>,
}

pub open spec fn net_sums_lines(ls: Seq<Seq<char>>) -> NetSums
    decreases ls.len(),
{
    if ls.len() == 0 {
        NetSums { rx: 0, tx: 0, ifaces: Seq::empty() }
    } else {
        let s = net_sums_lines(ls.drop_last());
        match net_line(ls.last()) {
            Some((name, rx, tx)) => NetSums {
                rx: s.rx + rx as nat,
                tx: s.tx + tx as nat,
                ifaces: s.ifaces.push(name),
            },
            None => s,
        }
    }
}

/// The lines after the two header lines.
pub open spec fn net_body(content: Seq<char>) -> Seq<Seq<char>> {
    let ls = lines(content);
    if ls.len() <= 2 {
        Seq::empty()
    } else {
        ls.skip(2)
    }
}

/// The totals of a `/proc/net/dev` text.
pub open spec fn net_sums(content: Seq<char>) -> NetSums {
    net_sums_lines(net_body(content))
}

pub open spec fn net_sums_fit(s: NetSums) -> bool {
    s.rx <= u64::MAX && s.tx <= u64::MAX
}

pub open spec fn net_counters_are(c: NetCounters, s: NetSums) -> bool {
    c.rx_bytes == s.rx && c.tx_bytes == s.tx && string_views(c.ifaces@) == s.ifaces
}

proof fn lemma_net_sums_grow(ls: Seq<Seq<char>>, i: int)
    requires
        0 <= i <= ls.len(),
    ensures
        net_sums_lines(ls.take(i)).rx <= net_sums_lines(ls).rx,
        net_sums_lines(ls.take(i)).tx <= net_sums_lines(ls).tx,
    decreases ls.len(),
{
    if i == ls.len() {
        assert(ls.take(i) =~= ls);
    } else {
        lemma_net_sums_grow(ls.drop_last(), i);
        assert(ls.drop_last().take(i) =~= ls.take(i));
    }
}

/// `net_line`, as values.
pub fn parse_net_line(line: &[char]) -> (r: Option<(Vec<char>, u64, u64)>)
    ensures
        r matches Some((name, rx, tx)) ==> net_line(line@) == Some((name@, rx, tx)),
        r is None ==> net_line(line@) is None,
{
    let t = trimmed(line);
    let colon = match find_char(&t, ':') {
        Some(p) => p,
        None => return None,
    };
    assert(colon < t.len());
    let head = copy_range(&t, 0, colon);
    assert(head@ =~= t@.take(colon as int));
    let iface = trimmed(&head);
    if eq_str(&iface, "lo") {
        return None;
    }
    let tail = copy_range(&t, colon + 1, t.len());
    assert(tail@ =~= t@.skip(colon + 1));
    let rest = trimmed(&tail);
    let parts = words_of(&rest);
    let ghost wv = words(rest@);
    assert(views(parts@) == wv);
    if parts.len() < 9 {
        return None;
    }
    assert(wv[0] == parts@[0]@ && wv[8] == parts@[8]@);
    let rx = u64_or_zero_of(&parts[0]);
    let tx = u64_or_zero_of(&parts[8]);
    Some((iface, rx, tx))
}

/// Parse `/proc/net/dev` content, skipping the two header lines and the `lo`
/// interface; `None` exactly where a byte total exceeds `u64::MAX`.
pub fn parse_net_dev_checked(content: &str) -> (r: Option<NetCounters>)
    ensures
        r matches Some(c) ==> net_sums_fit(net_sums(content@)) && net_counters_are(
            c,
            net_sums(content@),
        ),
        r is None ==> !net_sums_fit(net_sums(content@)),
{
    let chars = chars_of(content);
    let ls = lines_of(&chars);
    let ghost all = lines(content@);
    let ghost body = net_body(content@);
    let mut total = NetCounters { rx_bytes: 0, tx_bytes: 0, ifaces: Vec::new() };
    if ls.len() <= 2 {
        assert(net_sums_lines(body) == net_sums_lines(Seq::<Seq<char>>::empty()));
        assert(string_views(total.ifaces@) =~= Seq::<Seq<char>>::empty());
        return Some(total);
    }
    assert(body == all.skip(2));
    let mut i: usize = 2;
    assert(string_views(total.ifaces@) =~= Seq::<Seq<char>>::empty());
    assert(body.take(0) =~= Seq::<Seq<char>>::empty());
    while i < ls.len()
        invariant
            2 <= i <= ls@.len(),
            views(ls@) == all,
            all == lines(content@),
            body == net_body(content@),
            body == all.skip(2),
            net_counters_are(total, net_sums_lines(body.take(i - 2))),
        decreases ls@.len() - i,
    {
        let line = &ls[i];
        let ghost k = i - 2;
        assert(body[k] == line@);
        assert(body.take(k + 1).drop_last() =~= body.take(k));
        match parse_net_line(line) {
            Some((name, rx, tx)) => {
                let n1 = total.rx_bytes.checked_add(rx);
                let n2 = total.tx_bytes.checked_add(tx);
                match (n1, n2) {
                    (Some(a), Some(b)) => {
                        let ghost prev = total.ifaces@;
                        let s = string_of(&name);
                        total.ifaces.push(s);
                        total.rx_bytes = a;
                        total.tx_bytes = b;
                        assert(string_views(total.ifaces@) =~= string_views(prev).push(name@));
                    },
                    _ => {
                        proof {
                            let t = body.take(k + 1);
                            assert(t.last() == line@);
                            assert(net_sums_lines(t).rx == total.rx_bytes + rx);
                            assert(net_sums_lines(t).tx == total.tx_bytes + tx);
                            lemma_net_sums_grow(body, k + 1);
                            assert(body.take(body.len() as int) =~= body);
                        }
                        return None;
                    },
                }
            },
            None => {},
        }
        i = i + 1;
    }
    assert(body.take(body.len() as int) =~= body);
    Some(total)
}

/// Parse `/proc/net/dev` content, skipping the two header lines and the `lo` interface.
pub fn parse_net_dev(content: &str) -> (r: NetCounters)
    requires
        net_sums_fit(net_sums(content@)),
    ensures
        net_counters_are(r, net_sums(content@)),
{
    match parse_net_dev_checked(content) {
        Some(c) => c,
        None => {
            proof {
                assert(false);
            }
            NetCounters { rx_bytes: 0, tx_bytes: 0, ifaces: Vec::new() }
        },
    }
}

/// The growth of the received and transmitted totals from `prev` to
/// `curr`, 0 where a total shrank.
pub fn net_deltas(prev: &NetCounters, curr: &NetCounters) -> (r: (u64, u64))
    ensures
        r.0 == (if curr.rx_bytes >= prev.rx_bytes {
            curr.rx_bytes - prev.rx_bytes
        } else {
            0
        }),
        r.1 == (if curr.tx_bytes >= prev.tx_bytes {
            curr.tx_bytes - prev.tx_bytes
        } else {
            0
        }),
{
    (curr.rx_bytes.saturating_sub(prev.rx_bytes), curr.tx_bytes.saturating_sub(prev.tx_bytes))
}

/// The growth of one total from `prev` to `curr`, 0 where it shrank.
pub open spec fn total_growth(prev: u64, curr: u64) -> u64 {
    if curr >= prev {
        (curr - prev) as u64
    } else {
        0
    }
}

/// The growth of the received and transmitted totals since the kept
/// reading: none where no reading was kept yet.
pub open spec fn net_growth_of(prev: Option<NetCounters>, curr: NetCounters) -> (u64, u64) {
    match prev {
        None => (0, 0),
        Some(p) => (total_growth(p.rx_bytes, curr.rx_bytes), total_growth(p.tx_bytes, curr.tx_bytes)),
    }
}

/// The growth of the totals since the kept reading; zero before the first
/// reading.
pub fn net_growth(prev: &NetSnapshot, curr: &NetCounters) -> (r: (u64, u64))
    ensures
        r == net_growth_of(prev.counters, *curr),
{
    match &prev.counters {
        None => (0, 0),
        Some(p) => net_deltas(p, curr),
    }
}

/// One poll: the growth since the kept reading, and the state to keep for
/// the next poll, which holds this reading and its time.
pub fn net_step(prev: &NetSnapshot, curr: NetCounters, at: Instant) -> (r: ((u64, u64), NetSnapshot))
    ensures
        r.0 == net_growth_of(prev.counters, curr),
        r.1.counters == Some(curr),
        r.1.at == at,
{
    let growth = net_growth(prev, &curr);
    (growth, NetSnapshot { counters: Some(curr), at })
}

/// Before the first reading nothing has grown: the first poll after start
/// reports zero throughput, whatever the totals are.
pub proof fn lemma_first_poll_no_growth(curr: NetCounters)
    ensures
        net_growth_of(None, curr) == (0u64, 0u64),
{
}

proof fn lemma_lines_no_loopback(ls: Seq<Seq<char>>)
    ensures
        forall|i: int|
            0 <= i < net_sums_lines(ls).ifaces.len() ==> #[trigger] net_sums_lines(ls).ifaces[i]
                != "lo"@,
    decreases ls.len(),
{
    if ls.len() > 0 {
        lemma_lines_no_loopback(ls.drop_last());
        let prev = net_sums_lines(ls.drop_last());
        match net_line(ls.last()) {
            Some((name, rx, tx)) => {
                assert(name != "lo"@);
                assert forall|i: int| 0 <= i < net_sums_lines(ls).ifaces.len() implies #[trigger] net_sums_lines(
                    ls,
                ).ifaces[i] != "lo"@ by {
                    if i < prev.ifaces.len() {
                        assert(net_sums_lines(ls).ifaces[i] == prev.ifaces[i]);
                    }
                }
            },
            None => {},
        }
    }
}

/// The loopback interface is never counted.
pub proof fn lemma_no_loopback(content: Seq<char>)
    ensures
        forall|i: int|
            0 <= i < net_sums(content).ifaces.len() ==> #[trigger] net_sums(content).ifaces[i]
                != "lo"@,
{
    lemma_lines_no_loopback(net_body(content));
}

/// The header lines contribute nothing: a text of at most two lines has no
/// interfaces and zero totals.
pub proof fn lemma_headers_only(content: Seq<char>)
    requires
        lines(content).len() <= 2,
    ensures
        net_sums(content).rx == 0,
        net_sums(content).tx == 0,
        net_sums(content).ifaces.len() == 0,
{
}

/// An interface line of `/proc/net/dev`, `name: f0 f1 ... f8 ...` with any
/// whitespace before the name and after the colon, counts the first field
/// as received and the ninth as transmitted bytes of that interface; the
/// `lo` line counts nothing.
pub proof fn lemma_interface_line(
    lead: Seq<char>,
    name: Seq<char>,
    gap: Seq<char>,
    fs: Seq<Seq<char>>,
)
    requires
        forall|i: int| 0 <= i < lead.len() ==> is_ws(#[trigger] lead[i]),
        forall|i: int| 0 <= i < gap.len() ==> is_ws(#[trigger] gap[i]),
        plain_field(name, ':'),
        fs.len() >= 9,
        forall|i: int| 0 <= i < fs.len() ==> plain_field(#[trigger] fs[i], ':'),
    ensures
        net_line(lead + name + seq![':'] + gap + join_fields(fs)) == (if name == "lo"@ {
            None
        } else {
            Some((name, u64_or_zero(fs[0]), u64_or_zero(fs[8])))
        }),
{
    let j = join_fields(fs);
    lemma_join_fields(fs, ':');
    assert(plain_field(fs[0], ':'));
    assert(plain_field(fs[fs.len() - 1], ':'));
    assert(!is_ws(fs[0][0]));
    assert(!is_ws(fs.last()[fs.last().len() - 1]));
    let line = lead + name + seq![':'] + gap + j;
    let t = name + seq![':'] + gap + j;
    let c = name.len() as int;
    assert(!is_ws(name[0]) && !is_ws(name[name.len() - 1]));
    assert(line[lead.len() as int] == name[0]);
    lemma_trim_start_skip(line, lead.len() as int);
    assert(line.skip(lead.len() as int) =~= t);
    assert(t[t.len() - 1] == j[j.len() - 1]);
    lemma_trim_end_take(t, t.len() as int);
    assert(t.take(t.len() as int) =~= t);
    assert(trim(line) == t);
    assert(t[c] == ':');
    assert forall|k: int| 0 <= k < c implies t[k] != ':' by {
        assert(t[k] == name[k]);
    }
    lemma_first_index_at(t, ':', c);
    assert(t.take(c) =~= name);
    lemma_trim_start_skip(name, 0);
    assert(name.skip(0) =~= name);
    lemma_trim_end_take(name, name.len() as int);
    assert(name.take(name.len() as int) =~= name);
    let rest = gap + j;
    assert(t.skip(c + 1) =~= rest);
    assert(rest[gap.len() as int] == j[0]);
    lemma_trim_start_skip(rest, gap.len() as int);
    assert(rest.skip(gap.len() as int) =~= j);
    lemma_trim_end_take(j, j.len() as int);
    assert(j.take(j.len() as int) =~= j);
    assert(trim(rest) == j);
}

} // verus!

//! Sample-accurate audio planning: sample time, latency alignment, channel
//! layouts and drift.

use vstd::prelude::*;

use crate::arithmetic::{rescale_ticks_i64, spec_rescale_ticks};
use crate::fingerprint::{be_bytes, be_u32, be_u64, framed, hex_lower, sha256, Fingerprint};
use crate::text::str_equal;

verus! {

pub const MAX_SAMPLE_RATE: u32 = 384_000;

#[derive(Debug, Clone, Copy, PartialEq, Eq, Structural)]
pub struct AudioTime {
    pub sample_ticks: i64,
    pub sample_rate: u32,
}

impl AudioTime {
    /// A time at a sample rate between 1 Hz and 384 kHz.
    pub fn new(sample_ticks: i64, sample_rate: u32) -> (time: Option<Self>)
        ensures
            time == (if 0 < sample_rate <= MAX_SAMPLE_RATE {
                Some(AudioTime { sample_ticks, sample_rate })
            } else {
                None
            }),
    {
        if sample_rate > 0 && sample_rate <= MAX_SAMPLE_RATE {
            Some(AudioTime { sample_ticks, sample_rate })
        } else {
            None
        }
    }

    /// The same instant at another rate, rounded to the nearest sample (ties
    /// away from zero); `None` for an unsupported rate or a tick count that
    /// leaves `i64`.
    pub fn rescale(self, target_rate: u32) -> (time: Option<Self>)
        requires
            self.sample_rate > 0,
        ensures
            time == (if target_rate == 0 || target_rate > MAX_SAMPLE_RATE {
                None
            } else {
                match spec_rescale_ticks(self.sample_ticks, 1, self.sample_rate as i64, 1, target_rate as i64) {
                    Some(ticks) => Some(AudioTime { sample_ticks: ticks, sample_rate: target_rate }),
                    None => None,
                }
            }),
    {
        if target_rate == 0 || target_rate > MAX_SAMPLE_RATE {
            return None;
        }
        match rescale_ticks_i64(self.sample_ticks, 1, self.sample_rate as i64, 1, target_rate as i64) {
            Some(ticks) => AudioTime::new(ticks, target_rate),
            None => None,
        }
    }
}

pub struct AudioEffectNode {
    pub id: String,
    pub inputs: Vec<String>,
    pub latency_samples: u32,
}

/// No two nodes share an id.
pub open spec fn ids_unique(nodes: Seq<AudioEffectNode>) -> bool {
    forall|a: int, b: int| 0 <= a < b < nodes.len() ==> #[trigger] nodes[a].id@ != #[trigger] nodes[b].id@
}

pub open spec fn names_node(nodes: Seq<AudioEffectNode>, id: Seq<char>) -> bool {
    exists|j: int| 0 <= j < nodes.len() && #[trigger] nodes[j].id@ == id
}

/// Every input of every node names a node.
pub open spec fn inputs_known(nodes: Seq<AudioEffectNode>) -> bool {
    forall|i: int, k: int|
        0 <= i < nodes.len() && 0 <= k < nodes[i].inputs@.len() ==> names_node(nodes, #[trigger] nodes[i].inputs@[k]@)
}

/// The position of the node named `id`.
pub open spec fn node_index(nodes: Seq<AudioEffectNode>, id: Seq<char>) -> int {
    choose|j: int| 0 <= j < nodes.len() && #[trigger] nodes[j].id@ == id
}

pub open spec fn saturating_add(a: u64, b: u64) -> u64 {
    if a + b > u64::MAX {
        u64::MAX
    } else {
        (a + b) as u64
    }
}

/// The latest arrival among the first `k` inputs of node `i` that name a
/// node placed before it (inputs naming later nodes count as no delay).
pub open spec fn upstream_latency(nodes: Seq<AudioEffectNode>, i: int, k: int) -> u64
    decreases i, 0int, k,
{
    if k <= 0 || i < 0 || i >= nodes.len() || k > nodes[i].inputs@.len() {
        0
    } else {
        let previous = upstream_latency(nodes, i, k - 1);
        let j = node_index(nodes, nodes[i].inputs@[k - 1]@);
        let here = if names_node(nodes, nodes[i].inputs@[k - 1]@) && 0 <= j < i {
            total_latency(nodes, j)
        } else {
            0
        };
        if here > previous {
            here
        } else {
            previous
        }
    }
}

/// The latency accumulated at the output of node `i`.
pub open spec fn total_latency(nodes: Seq<AudioEffectNode>, i: int) -> u64
    decreases i, 1int, 0int,
{
    if i < 0 || i >= nodes.len() {
        0
    } else {
        saturating_add(upstream_latency(nodes, i, nodes[i].inputs@.len() as int), nodes[i].latency_samples as u64)
    }
}

/// The largest accumulated latency among the first `n` nodes.
pub open spec fn max_latency(nodes: Seq<AudioEffectNode>, n: int) -> u64
    decreases n,
{
    if n <= 0 {
        0
    } else {
        let previous = max_latency(nodes, n - 1);
        if total_latency(nodes, n - 1) > previous {
            total_latency(nodes, n - 1)
        } else {
            previous
        }
    }
}

proof fn lemma_max_latency_bound(nodes: Seq<AudioEffectNode>, n: int, i: int)
    requires
        0 <= i < n,
    ensures
        total_latency(nodes, i) <= max_latency(nodes, n),
    decreases n,
{
    if i < n - 1 {
        lemma_max_latency_bound(nodes, n - 1, i);
    }
}

fn find_node(nodes: &[AudioEffectNode], id: &str) -> (found: Option<usize>)
    ensures
        found matches Some(j) ==> j < nodes@.len() && nodes@[j as int].id@ == id@,
        found is None ==> !names_node(nodes@, id@),
{
    let mut j: usize = 0;
    while j < nodes.len()
        invariant
            0 <= j <= nodes@.len(),
            forall|a: int| 0 <= a < j ==> nodes@[a].id@ != id@,
        decreases nodes.len() - j,
    {
        if str_equal(nodes[j].id.as_str(), id) {
            return Some(j);
        }
        j = j + 1;
    }
    None
}

fn check_unique(nodes: &[AudioEffectNode]) -> (unique: bool)
    ensures
        unique == ids_unique(nodes@),
{
    let mut b: usize = 0;
    while b < nodes.len()
        invariant
            0 <= b <= nodes@.len(),
            forall|x: int, y: int| 0 <= x < y < b ==> #[trigger] nodes@[x].id@ != #[trigger] nodes@[y].id@,
        decreases nodes.len() - b,
    {
        let mut a: usize = 0;
        while a < b
            invariant
                0 <= a <= b,
                b < nodes@.len(),
                forall|x: int, y: int| 0 <= x < y < b ==> #[trigger] nodes@[x].id@ != #[trigger] nodes@[y].id@,
                forall|x: int| 0 <= x < a ==> nodes@[x].id@ != nodes@[b as int].id@,
            decreases b - a,
        {
            if str_equal(nodes[a].id.as_str(), nodes[b].id.as_str()) {
                return false;
            }
            a = a + 1;
        }
        b = b + 1;
    }
    true
}

/// The delay each node's output needs so that every branch of the graph
/// arrives together: the largest accumulated latency minus the node's own.
/// One entry per node, in node order.
pub fn latency_compensation(nodes: &[AudioEffectNode]) -> (result: Result<Vec<(String, u64)>, &'static str>)
    ensures
        !ids_unique(nodes@) ==> (result matches Err(message) && message@ == "duplicate audio node"@),
        ids_unique(nodes@) && !inputs_known(nodes@) ==> (result matches Err(message) && message@
            == "missing audio dependency"@),
        result is Ok <==> ids_unique(nodes@) && inputs_known(nodes@),
        result matches Ok(delays) ==> delays@.len() == nodes@.len() && forall|i: int|
            0 <= i < nodes@.len() ==> (#[trigger] delays@[i]).0@ == nodes@[i].id@ && delays@[i].1 == max_latency(
                nodes@,
                nodes@.len() as int,
            ) - total_latency(nodes@, i),
        result matches Ok(delays) ==> forall|i: int, m: int, j: int|
            0 <= j < i < nodes@.len() && 0 <= m < nodes@[i].inputs@.len() && #[trigger] nodes@[j].id@
                == #[trigger] nodes@[i].inputs@[m]@ && total_latency(nodes@, j) + nodes@[i].latency_samples <= u64::MAX
                ==> delays@[j].1 >= delays@[i].1 + nodes@[i].latency_samples,
{
    if !check_unique(nodes) {
        return Err("duplicate audio node");
    }
    let ghost s = nodes@;
    let n = nodes.len();
    let mut totals: Vec<u64> = Vec::new();
    let mut i: usize = 0;
    while i < n
        invariant
            0 <= i <= n,
            n == s.len(),
            s == nodes@,
            ids_unique(s),
            totals@.len() == i,
            forall|a: int| 0 <= a < i ==> #[trigger] totals@[a] == total_latency(s, a),
            forall|a: int, k: int| 0 <= a < i && 0 <= k < s[a].inputs@.len() ==> names_node(s, #[trigger] s[a].inputs@[k]@),
        decreases n - i,
    {
        let node = &nodes[i];
        let mut upstream: u64 = 0;
        let mut k: usize = 0;
        while k < node.inputs.len()
            invariant
                0 <= k <= node.inputs@.len(),
                i < n,
                n == s.len(),
                s == nodes@,
                *node == s[i as int],
                ids_unique(s),
                totals@.len() == i,
                forall|a: int| 0 <= a < i ==> #[trigger] totals@[a] == total_latency(s, a),
                forall|a: int, m: int| 0 <= a < i && 0 <= m < s[a].inputs@.len() ==> names_node(s, #[trigger] s[a].inputs@[m]@),
                forall|m: int| 0 <= m < k ==> names_node(s, #[trigger] node.inputs@[m]@),
                upstream == upstream_latency(s, i as int, k as int),
            decreases node.inputs.len() - k,
        {
            match find_node(nodes, node.inputs[k].as_str()) {
                None => {
                    assert(!inputs_known(s)) by {
                        assert(!names_node(s, s[i as int].inputs@[k as int]@));
                    }
                    return Err("missing audio dependency");
                },
                Some(j) => {
                    proof {
                        let c = node_index(s, node.inputs@[k as int]@);
                        if c != j {
                            if c < j {
                                assert(s[c].id@ != s[j as int].id@);
                            } else {
                                assert(s[j as int].id@ != s[c].id@);
                            }
                        }
                    }
                    if j < i {
                        let here = totals[j];
                        if here > upstream {
                            upstream = here;
                        }
                    }
                },
            }
            k = k + 1;
        }
        let total = upstream.saturating_add(node.latency_samples as u64);
        totals.push(total);
        i = i + 1;
    }
    assert(inputs_known(s));
    let mut maximum: u64 = 0;
    let mut i: usize = 0;
    while i < n
        invariant
            0 <= i <= n,
            n == s.len(),
            totals@.len() == n,
            forall|a: int| 0 <= a < n ==> #[trigger] totals@[a] == total_latency(s, a),
            maximum == max_latency(s, i as int),
        decreases n - i,
    {
        if totals[i] > maximum {
            maximum = totals[i];
        }
        i = i + 1;
    }
    let mut delays: Vec<(String, u64)> = Vec::new();
    let mut i: usize = 0;
    while i < n
        invariant
            0 <= i <= n,
            n == s.len(),
            s == nodes@,
            totals@.len() == n,
            forall|a: int| 0 <= a < n ==> #[trigger] totals@[a] == total_latency(s, a),
            maximum == max_latency(s, n as int),
            delays@.len() == i,
            forall|a: int| 0 <= a < i ==> (#[trigger] delays@[a]).0@ == s[a].id@ && delays@[a].1 == maximum - total_latency(s, a),
        decreases n - i,
    {
        proof {
            lemma_max_latency_bound(s, n as int, i as int);
        }
        delays.push((nodes[i].id.clone(), maximum - totals[i]));
        i = i + 1;
    }
    proof {
        assert forall|i: int, m: int, j: int|
            0 <= j < i < nodes@.len() && 0 <= m < nodes@[i].inputs@.len() && #[trigger] nodes@[j].id@
                == #[trigger] nodes@[i].inputs@[m]@ && total_latency(nodes@, j) + nodes@[i].latency_samples <= u64::MAX
                implies delays@[j].1 >= delays@[i].1 + nodes@[i].latency_samples by {
            law_latency_accumulates(nodes@, i);
            lemma_max_latency_bound(nodes@, nodes@.len() as int, i);
            lemma_max_latency_bound(nodes@, nodes@.len() as int, j);
        }
    }
    Ok(delays)
}

#[derive(Debug, Clone, Copy, PartialEq, Eq, Structural)]
pub enum Channel {
    Left,
    Right,
    Center,
    Lfe,
    LeftSurround,
    RightSurround,
}

pub struct ChannelLayout {
    pub channels: Vec<Channel>,
}

/// One to 32 channels, none repeated.
pub open spec fn valid_layout(channels: Seq<Channel>) -> bool {
    &&& 1 <= channels.len() <= 32
    &&& forall|a: int, b: int| 0 <= a < b < channels.len() ==> #[trigger] channels[a] != #[trigger] channels[b]
}

impl ChannelLayout {
    pub fn mono() -> (layout: Self)
        ensures
            layout.channels@ == seq![Channel::Center],
    {
        ChannelLayout { channels: vec![Channel::Center] }
    }

    pub fn stereo() -> (layout: Self)
        ensures
            layout.channels@ == seq![Channel::Left, Channel::Right],
    {
        ChannelLayout { channels: vec![Channel::Left, Channel::Right] }
    }

    pub fn surround_5_1() -> (layout: Self)
        ensures
            layout.channels@ == seq![
                Channel::Left,
                Channel::Right,
                Channel::Center,
                Channel::Lfe,
                Channel::LeftSurround,
                Channel::RightSurround,
            ],
    {
        ChannelLayout {
            channels: vec![
                Channel::Left,
                Channel::Right,
                Channel::Center,
                Channel::Lfe,
                Channel::LeftSurround,
                Channel::RightSurround,
            ],
        }
    }

    pub fn validate(&self) -> (valid: bool)
        ensures
            valid == valid_layout(self.channels@),
    {
        let n = self.channels.len();
        if n == 0 || n > 32 {
            return false;
        }
        let mut b: usize = 0;
        while b < n
            invariant
                0 <= b <= n,
                n == self.channels@.len(),
                forall|x: int, y: int| 0 <= x < y < b ==> #[trigger] self.channels@[x] != #[trigger] self.channels@[y],
            decreases n - b,
        {
            let mut a: usize = 0;
            while a < b
                invariant
                    0 <= a <= b,
                    b < n,
                    n == self.channels@.len(),
                    forall|x: int, y: int| 0 <= x < y < b ==> #[trigger] self.channels@[x] != #[trigger] self.channels@[y],
                    forall|x: int| 0 <= x < a ==> self.channels@[x] != self.channels@[b as int],
                decreases b - a,
            {
                if self.channels[a] == self.channels[b] {
                    return false;
                }
                a = a + 1;
            }
            b = b + 1;
        }
        true
    }
}

#[derive(Debug, Clone, Copy, PartialEq, Eq, Structural)]
pub enum StretchProfile {
    Realtime,
    OfflineHighQuality,
}

pub struct AudioRenderPlan {
    pub sample_rate: u32,
    pub layout: ChannelLayout,
    pub nodes: Vec<AudioEffectNode>,
    pub video_required: bool,
}

impl AudioRenderPlan {
    /// A supported sample rate, a valid layout, and an effect graph whose
    /// latency can be compensated.
    pub fn validate(&self) -> (valid: bool)
        ensures
            valid == (0 < self.sample_rate <= MAX_SAMPLE_RATE && valid_layout(self.layout.channels@) && ids_unique(
                self.nodes@,
            ) && inputs_known(self.nodes@)),
    {
        AudioTime::new(0, self.sample_rate).is_some() && self.layout.validate() && latency_compensation(
            self.nodes.as_slice(),
        ).is_ok()
    }
}

#[derive(Debug, Clone, Copy, PartialEq, Eq, Structural)]
pub enum SampleFault {
    Nan,
    Infinite,
    Denormal,
    UnexpectedSilence,
}

#[derive(Debug, Clone, Copy, PartialEq, Eq, Structural)]
pub struct DriftObservation {
    pub expected_end_samples: i64,
    pub actual_end_samples: i64,
    pub tolerance_samples: u32,
}

impl DriftObservation {
    /// The rendered end lies within the tolerance of the expected end.
    pub fn passes(self) -> (ok: bool)
        requires
            i64::MIN <= self.actual_end_samples - self.expected_end_samples <= i64::MAX,
        ensures
            ok == (-(self.tolerance_samples as int) <= self.actual_end_samples - self.expected_end_samples
                <= self.tolerance_samples),
    {
        let difference: i64 = self.actual_end_samples - self.expected_end_samples;
        let magnitude: u64 = if difference < 0 {
            ((-(difference as i128)) as u64)
        } else {
            difference as u64
        };
        magnitude <= self.tolerance_samples as u64
    }
}

/// The last four of eight big-endian bytes: a `u32`'s own four.
fn be_bytes_u32(value: u32) -> (bytes: Vec<u8>)
    ensures
        bytes@ == be_u32(value as nat),
{
    let wide = be_bytes(value as u64);
    let mut bytes: Vec<u8> = Vec::new();
    let mut k: usize = 4;
    while k < 8
        invariant
            4 <= k <= 8,
            wide@ == be_u64(value as nat),
            bytes@ == wide@.subrange(4, k as int),
        decreases 8 - k,
    {
        bytes.push(wide[k]);
        assert(wide@.subrange(4, k + 1) =~= wide@.subrange(4, k as int).push(wide@[k as int]));
        k = k + 1;
    }
    assert(bytes@ =~= be_u32(value as nat));
    bytes
}

/// The cache key of a waveform tile: the digest of its source fingerprint
/// text, level, tile index and bucket size, each framed by its length.
pub fn waveform_tile_key(source: &Fingerprint, level: u8, tile: u32, samples_per_bucket: u32) -> (key: Fingerprint)
    ensures
        key@ == hex_lower(
            sha256(
                framed(
                    seq![vstd::utf8::encode_utf8(source@), seq![level], be_u32(tile as nat), be_u32(samples_per_bucket as nat)],
                ),
            ),
        ),
{
    let text = source.as_str().as_bytes();
    let mut first: Vec<u8> = Vec::new();
    let mut i: usize = 0;
    while i < text.len()
        invariant
            0 <= i <= text@.len(),
            first@ == text@.subrange(0, i as int),
        decreases text.len() - i,
    {
        first.push(text[i]);
        assert(text@.subrange(0, i + 1) =~= text@.subrange(0, i as int).push(text@[i as int]));
        i = i + 1;
    }
    assert(first@ =~= text@);
    assert(text@ == vstd::utf8::encode_utf8(source@));
    let single = vec![level];
    assert(single@ =~= seq![level]);
    let parts = vec![first, single, be_bytes_u32(tile), be_bytes_u32(samples_per_bucket)];
    assert(parts@[0]@ == first@);
    assert(parts@.map_values(|p: Vec<u8>| p@) =~= seq![
        vstd::utf8::encode_utf8(source@),
        seq![level],
        be_u32(tile as nat),
        be_u32(samples_per_bucket as nat),
    ]);
    Fingerprint::combine(parts.as_slice())
}

proof fn lemma_upstream_bounds(nodes: Seq<AudioEffectNode>, i: int, k: int)
    requires
        ids_unique(nodes),
        0 <= i < nodes.len(),
        0 <= k <= nodes[i].inputs@.len(),
    ensures
        forall|m: int, j: int|
            0 <= m < k && 0 <= j < i && #[trigger] nodes[j].id@ == #[trigger] nodes[i].inputs@[m]@ ==> total_latency(nodes, j)
                <= upstream_latency(nodes, i, k),
        upstream_latency(nodes, i, k) == 0 || exists|m: int, j: int|
            0 <= m < k && 0 <= j < i && #[trigger] nodes[j].id@ == #[trigger] nodes[i].inputs@[m]@ && upstream_latency(
                nodes,
                i,
                k,
            ) == total_latency(nodes, j),
    decreases k,
{
    if k > 0 {
        lemma_upstream_bounds(nodes, i, k - 1);
        let input = nodes[i].inputs@[k - 1]@;
        let c = node_index(nodes, input);
        assert forall|m: int, j: int|
            0 <= m < k && 0 <= j < i && #[trigger] nodes[j].id@ == #[trigger] nodes[i].inputs@[m]@ implies total_latency(nodes, j)
                <= upstream_latency(nodes, i, k) by {
            if m == k - 1 {
                assert(names_node(nodes, input));
                if c != j {
                    if c < j {
                        assert(nodes[c].id@ != nodes[j].id@);
                    } else {
                        assert(nodes[j].id@ != nodes[c].id@);
                    }
                }
            }
        }
        if names_node(nodes, input) && 0 <= c < i && total_latency(nodes, c) > upstream_latency(nodes, i, k - 1) {
            assert(nodes[c].id@ == nodes[i].inputs@[k - 1]@);
        }
    }
}

/// Latency accumulates along the graph: a node's output is as late as the
/// latest of its earlier inputs plus its own latency (saturating), and no
/// later. So the delay of an input exceeds the delay of the node it feeds by
/// that node's own latency, at least.
pub proof fn law_latency_accumulates(nodes: Seq<AudioEffectNode>, i: int)
    requires
        ids_unique(nodes),
        0 <= i < nodes.len(),
    ensures
        total_latency(nodes, i) >= nodes[i].latency_samples,
        forall|m: int, j: int|
            0 <= m < nodes[i].inputs@.len() && 0 <= j < i && #[trigger] nodes[j].id@ == #[trigger] nodes[i].inputs@[m]@
                && total_latency(nodes, j) + nodes[i].latency_samples <= u64::MAX ==> total_latency(nodes, j)
                + nodes[i].latency_samples <= total_latency(nodes, i),
        total_latency(nodes, i) == nodes[i].latency_samples || total_latency(nodes, i) == u64::MAX || exists|m: int, j: int|
            0 <= m < nodes[i].inputs@.len() && 0 <= j < i && #[trigger] nodes[j].id@ == #[trigger] nodes[i].inputs@[m]@
                && total_latency(nodes, i) == total_latency(nodes, j) + nodes[i].latency_samples,
        forall|m: int, j: int|
            0 <= m < nodes[i].inputs@.len() && 0 <= j < i && #[trigger] nodes[j].id@ == #[trigger] nodes[i].inputs@[m]@
                && total_latency(nodes, j) + nodes[i].latency_samples <= u64::MAX ==> max_latency(nodes, nodes.len() as int)
                - total_latency(nodes, j) >= max_latency(nodes, nodes.len() as int) - total_latency(nodes, i)
                + nodes[i].latency_samples,
{
    lemma_upstream_bounds(nodes, i, nodes[i].inputs@.len() as int);
}

} // verus!

//! What a client knows of its swarm, as its console shows it.

use crate::network::{NodeDiscoveryInfo, NodeView, node_views};
use crate::text::{append_number, decimal};
use vstd::prelude::*;

verus! {

/// The state of the swarm as the client last saw it.
#[derive(Debug)]
pub struct SwarmStatus {
    /// Name of the model.
    pub model_name: String,
    /// Milliseconds until the first token of the last answer.
    pub ttft_ms: u32,
    /// How long the last tokens took, in words.
    pub latency_report: String,
    /// The nodes of the swarm, in pipeline order.
    pub nodes: Vec<NodeDiscoveryInfo>,
    /// Whether the swarm was there when it was last tried.
    pub connected: bool,
}

/// A [`SwarmStatus`] as mathematical values.
#[verifier::ext_equal]
pub struct StatusView {
    pub model_name: Seq<char>,
    pub ttft_ms: u32,
    pub latency_report: Seq<char>,
    pub nodes: Seq<NodeView>,
    pub connected: bool,
}

impl View for SwarmStatus {
    type V = StatusView;

    open spec fn view(&self) -> StatusView {
        StatusView {
            model_name: self.model_name@,
            ttft_ms: self.ttft_ms,
            latency_report: self.latency_report@,
            nodes: node_views(self.nodes@),
            connected: self.connected,
        }
    }
}

impl StatusView {
    /// A swarm that is not there has no nodes.
    pub open spec fn wf(self) -> bool {
        !self.connected ==> self.nodes.len() == 0
    }

    /// The status before anything has been tried.
    pub open spec fn fresh(model_name: Option<Seq<char>>) -> StatusView {
        StatusView {
            model_name: match model_name {
                Some(name) => name,
                None => "Caravan Swarm Model"@,
            },
            ttft_ms: 0,
            latency_report: "Awaiting generation..."@,
            nodes: Seq::empty(),
            connected: false,
        }
    }

    /// The status once the swarm has been found with these nodes.
    pub open spec fn online(self, nodes: Seq<NodeView>) -> StatusView {
        StatusView { nodes, connected: true, ..self }
    }

    /// The status once the swarm has been lost.
    pub open spec fn offline(self) -> StatusView {
        StatusView { nodes: Seq::empty(), connected: false, ..self }
    }
}

/// The status of a swarm that has been found lists exactly the nodes that were found: as many, each
/// as it is, in the same order. Nothing else changes but that the swarm is there.
pub proof fn lemma_found_nodes_are_listed(status: StatusView, nodes: Seq<NodeView>)
    ensures
        ({
            let found = status.online(nodes);
            &&& found.connected
            &&& found.nodes.len() == nodes.len()
            &&& forall|i: int|
                0 <= i < nodes.len() ==> {
                    &&& (#[trigger] found.nodes[i]).addr == nodes[i].addr
                    &&& found.nodes[i].layers == nodes[i].layers
                    &&& found.nodes[i].is_final == nodes[i].is_final
                    &&& found.nodes[i].role == nodes[i].role
                }
            &&& found.model_name == status.model_name
            &&& found.ttft_ms == status.ttft_ms
            &&& found.latency_report == status.latency_report
            &&& found.wf()
        }),
{
}

/// What is seen of a list of nodes is each of them, with all that it says of itself.
pub proof fn lemma_node_views_are_nodes(nodes: Seq<NodeDiscoveryInfo>)
    ensures
        node_views(nodes).len() == nodes.len(),
        forall|i: int|
            0 <= i < nodes.len() ==> {
                &&& (#[trigger] node_views(nodes)[i]).addr == nodes[i].addr@
                &&& node_views(nodes)[i].layers == nodes[i].layers@
                &&& node_views(nodes)[i].is_final == nodes[i].is_final
                &&& node_views(nodes)[i].role == nodes[i].role@
            },
{
}

/// A swarm that is lost and found again has the nodes that it is found with, and none of the old
/// ones; what was noted of the last answer stays.
pub proof fn lemma_lost_and_found(status: StatusView, nodes: Seq<NodeView>)
    ensures
        !status.offline().connected,
        status.offline().nodes.len() == 0,
        status.offline().model_name == status.model_name,
        status.offline().ttft_ms == status.ttft_ms,
        status.offline().latency_report == status.latency_report,
        status.offline().online(nodes).nodes == nodes,
        status.offline().online(nodes) == status.online(nodes),
{
}

/// A latency report names both times: behind `Prefill: ` that of the first token in decimal, and
/// behind `Token: ` that of the newest one as it is.
pub proof fn lemma_latency_report_names_times(ttft_ms: u32, token_ms: Seq<char>)
    ensures
        ({
            let text = latency_text(ttft_ms, token_ms);
            let first = decimal(ttft_ms as nat);
            let n = first.len() as int;
            let k = text.len() - 2;
            &&& k == 21 + n + token_ms.len()
            &&& text.take(9) == "Prefill: "@
            &&& text.subrange(9, 9 + n) == first
            &&& text.subrange(9 + n, 21 + n) == "ms | Token: "@
            &&& text.subrange(21 + n, k) == token_ms
            &&& text.skip(k) == "ms"@
        }),
{
    reveal_strlit("Prefill: ");
    reveal_strlit("ms | Token: ");
    reveal_strlit("ms");
    let text = latency_text(ttft_ms, token_ms);
    let first = decimal(ttft_ms as nat);
    let n = first.len() as int;
    let k = text.len() - 2;
    assert(text.take(9) =~= "Prefill: "@);
    assert(text.subrange(9, 9 + n) =~= first);
    assert(text.subrange(9 + n, 21 + n) =~= "ms | Token: "@);
    assert(text.subrange(21 + n, k) =~= token_ms);
    assert(text.skip(k) =~= "ms"@);
}

/// The report on how long the last tokens took: `ttft_ms` for the first one, `token_ms` for the
/// newest one.
pub open spec fn latency_text(ttft_ms: u32, token_ms: Seq<char>) -> Seq<char> {
    "Prefill: "@ + decimal(ttft_ms as nat) + "ms | Token: "@ + token_ms + "ms"@
}

/// Writes the latency report.
pub fn latency_report(ttft_ms: u32, token_ms: &str) -> (r: String)
    ensures
        r@ == latency_text(ttft_ms, token_ms@),
{
    let mut s = "Prefill: ".to_owned();
    append_number(&mut s, ttft_ms as usize);
    s.append("ms | Token: ");
    s.append(token_ms);
    s.append("ms");
    s
}

impl SwarmStatus {
    /// The status before anything has been tried.
    pub fn new(model_name: Option<String>) -> (r: SwarmStatus)
        ensures
            r@ == StatusView::fresh(
                match model_name {
                    Some(name) => Some(name@),
                    None => None,
                },
            ),
            r@.wf(),
            model_name matches Some(name) ==> r.model_name@ == name@,
            r.ttft_ms == 0,
            r.nodes@.len() == 0,
            !r.connected,
    {
        let r = SwarmStatus {
            model_name: match model_name {
                Some(name) => name,
                None => "Caravan Swarm Model".to_owned(),
            },
            ttft_ms: 0,
            latency_report: "Awaiting generation...".to_owned(),
            nodes: Vec::new(),
            connected: false,
        };
        assert(node_views(r.nodes@) =~= Seq::<NodeView>::empty());
        r
    }

    /// Notes that the swarm has been found with these nodes.
    pub fn go_online(&mut self, nodes: Vec<NodeDiscoveryInfo>)
        ensures
            final(self)@ == old(self)@.online(node_views(nodes@)),
            final(self)@.wf(),
            final(self).connected,
            final(self).nodes == nodes,
            final(self).model_name == old(self).model_name,
            final(self).ttft_ms == old(self).ttft_ms,
            final(self).latency_report == old(self).latency_report,
    {
        self.connected = true;
        self.nodes = nodes;
    }

    /// Notes that the swarm has been lost.
    pub fn go_offline(&mut self)
        ensures
            final(self)@ == old(self)@.offline(),
            final(self)@.wf(),
            !final(self).connected,
            final(self).nodes@.len() == 0,
            final(self).model_name == old(self).model_name,
            final(self).ttft_ms == old(self).ttft_ms,
            final(self).latency_report == old(self).latency_report,
    {
        self.connected = false;
        self.nodes = Vec::new();
        assert(node_views(self.nodes@) =~= Seq::<NodeView>::empty());
    }

    /// Notes how many milliseconds the first token of an answer took, modulo 2^32, and gives back
    /// what was noted.
    pub fn first_token_after(&mut self, elapsed_ms: u128) -> (ttft_ms: u32)
        ensures
            ttft_ms == elapsed_ms % 0x1_0000_0000,
            final(self)@ == (StatusView { ttft_ms, ..old(self)@ }),
            old(self)@.wf() ==> final(self)@.wf(),
    {
        self.ttft_ms = (elapsed_ms % 0x1_0000_0000) as u32;
        self.ttft_ms
    }

    /// Notes how long the newest token of an answer took whose first one took `ttft_ms`.
    pub fn token_took(&mut self, ttft_ms: u32, token_ms: &str)
        ensures
            final(self)@ == (StatusView {
                latency_report: latency_text(ttft_ms, token_ms@),
                ..old(self)@
            }),
            old(self)@.wf() ==> final(self)@.wf(),
    {
        self.latency_report = latency_report(ttft_ms, token_ms);
    }
}

} // verus!

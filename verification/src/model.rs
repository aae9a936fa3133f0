//! The records that a capture writes and the graph that is built from them,
//! with their mathematical views.

use vstd::prelude::*;
use crate::order::str_views;

verus! {

/// The host that made a capture: its name, its addresses and its loopback
/// addresses.
pub struct ServerInfo {
    pub hostname: String,
    pub ips: Vec<String>,
    pub loopbacks: Vec<String>,
}

/// One remote endpoint that the host was connected to.
pub struct Connection {
    pub remote_ip: String,
    pub remote_port: u16,
}

/// The contents of one capture file.
pub struct ConnectionsFile {
    pub server: ServerInfo,
    pub connections: Vec<Connection>,
}

/// A node of the graph: a captured host, or an address that no capture
/// claims (an external node).
pub struct GraphNode {
    pub id: String,
    pub hostname: String,
    pub ips: Vec<String>,
    pub loopbacks: Vec<String>,
    pub is_external: bool,
    pub snapshot_count: usize,
}

/// An edge of the graph, from a captured host to a node.
pub struct GraphEdge {
    pub source: String,
    pub target: String,
    pub ports: Vec<u16>,
    pub connection_count: usize,
    pub is_external: bool,
    pub is_self_loop: bool,
}

/// The network graph.
pub struct Graph {
    pub nodes: Vec<GraphNode>,
    pub edges: Vec<GraphEdge>,
}

/// A remote endpoint as a value: address text and port.
pub type Endpoint = (Seq<char>, u16);

pub struct ServerInfoView {
    pub hostname: Seq<char>,
    pub ips: Seq<Seq<char>>,
    pub loopbacks: Seq<Seq<char>>,
}

pub struct FileView {
    pub server: ServerInfoView,
    pub connections: Seq<Endpoint>,
}

pub struct NodeView {
    pub id: Seq<char>,
    pub hostname: Seq<char>,
    pub ips: Seq<Seq<char>>,
    pub loopbacks: Seq<Seq<char>>,
    pub is_external: bool,
    pub snapshot_count: nat,
}

pub struct EdgeView {
    pub source: Seq<char>,
    pub target: Seq<char>,
    pub ports: Seq<u16>,
    pub connection_count: nat,
    pub is_external: bool,
    pub is_self_loop: bool,
}

pub struct GraphView {
    pub nodes: Seq<NodeView>,
    pub edges: Seq<EdgeView>,
}

impl View for ServerInfo {
    type V = ServerInfoView;

    open spec fn view(&self) -> ServerInfoView {
        ServerInfoView {
            hostname: self.hostname@,
            ips: str_views(self.ips@),
            loopbacks: str_views(self.loopbacks@),
        }
    }
}

impl View for Connection {
    type V = Endpoint;

    open spec fn view(&self) -> Endpoint {
        (self.remote_ip@, self.remote_port)
    }
}

/// The endpoints of a sequence of connections.
pub open spec fn endpoints(v: Seq<Connection>) -> Seq<Endpoint> {
    v.map_values(|c: Connection| c@)
}

impl View for ConnectionsFile {
    type V = FileView;

    open spec fn view(&self) -> FileView {
        FileView { server: self.server@, connections: endpoints(self.connections@) }
    }
}

/// The views of a sequence of capture files.
pub open spec fn file_views(v: Seq<ConnectionsFile>) -> Seq<FileView> {
    v.map_values(|f: ConnectionsFile| f@)
}

impl View for GraphNode {
    type V = NodeView;

    open spec fn view(&self) -> NodeView {
        NodeView {
            id: self.id@,
            hostname: self.hostname@,
            ips: str_views(self.ips@),
            loopbacks: str_views(self.loopbacks@),
            is_external: self.is_external,
            snapshot_count: self.snapshot_count as nat,
        }
    }
}

impl View for GraphEdge {
    type V = EdgeView;

    open spec fn view(&self) -> EdgeView {
        EdgeView {
            source: self.source@,
            target: self.target@,
            ports: self.ports@,
            connection_count: self.connection_count as nat,
            is_external: self.is_external,
            is_self_loop: self.is_self_loop,
        }
    }
}

/// The views of a sequence of nodes.
pub open spec fn node_views(v: Seq<GraphNode>) -> Seq<NodeView> {
    v.map_values(|n: GraphNode| n@)
}

/// The views of a sequence of edges.
pub open spec fn edge_views(v: Seq<GraphEdge>) -> Seq<EdgeView> {
    v.map_values(|e: GraphEdge| e@)
}

impl View for Graph {
    type V = GraphView;

    open spec fn view(&self) -> GraphView {
        GraphView { nodes: node_views(self.nodes@), edges: edge_views(self.edges@) }
    }
}

} // verus!

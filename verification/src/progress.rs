//! Status of an index run.

use vstd::prelude::*;

verus! {

#[derive(Debug, Clone)]
pub struct IndexStatus {
    pub state: IndexState,
    pub workspace: String,
    pub phase: Option<String>,
    pub processed_files: usize,
    pub total_files: usize,
    pub indexed_files: usize,
    pub skipped_files: usize,
    pub symbols: usize,
    pub semantic_generation: u64,
    pub elapsed_ms: u128,
    pub discover_ms: u128,
    pub parse_ms: u128,
    pub write_ms: u128,
    pub check_ms: u128,
    pub include_edge_ms: u128,
    pub name_table_ms: u128,
    pub reach_graph_ms: u128,
    pub degraded_capabilities: DegradedCapabilities,
    pub message: Option<String>,
}

#[derive(Debug, Clone, Copy, PartialEq, Eq, Structural)]
pub enum IndexState {
    Indexing,
    Ready,
    Failed,
}

/// Features that work on incomplete data.
#[derive(Debug, Clone, Copy, PartialEq, Eq, Structural)]
pub struct DegradedCapabilities {
    pub reach_graph: bool,
    pub include_table: bool,
    pub reference_file_list: bool,
    pub project_context: bool,
}

impl Default for DegradedCapabilities {
    fn default() -> (r: Self)
        ensures
            r == DegradedCapabilities::spec_none(),
    {
        DegradedCapabilities {
            reach_graph: false,
            include_table: false,
            reference_file_list: false,
            project_context: false,
        }
    }
}

pub open spec fn label_if(on: bool, label: Seq<char>) -> Seq<Seq<char>> {
    if on {
        seq![label]
    } else {
        Seq::empty()
    }
}

pub open spec fn str_views(v: Seq<&'static str>) -> Seq<Seq<char>> {
    Seq::new(v.len(), |i: int| v[i]@)
}

fn push_label(labels: &mut Vec<&'static str>, on: bool, label: &'static str)
    ensures
        str_views(final(labels)@) == str_views(old(labels)@) + label_if(on, label@),
{
    let ghost before = str_views(labels@);
    if on {
        labels.push(label);
        assert(str_views(labels@) =~= before + seq![label@]);
    } else {
        assert(str_views(labels@) =~= before + Seq::<Seq<char>>::empty());
    }
}

impl DegradedCapabilities {
    /// Nothing is degraded.
    pub open spec fn spec_none() -> Self {
        DegradedCapabilities {
            reach_graph: false,
            include_table: false,
            reference_file_list: false,
            project_context: false,
        }
    }

    pub fn any(&self) -> (r: bool)
        ensures
            r == (*self != DegradedCapabilities::spec_none()),
    {
        self.reach_graph || self.include_table || self.reference_file_list || self.project_context
    }

    pub open spec fn spec_labels(self) -> Seq<Seq<char>> {
        label_if(self.reach_graph, "reachGraph"@) + label_if(self.include_table, "includeTable"@)
            + label_if(self.reference_file_list, "referenceFileList"@) + label_if(
            self.project_context,
            "projectContext"@,
        )
    }

    /// The names of the degraded features, in a fixed order.
    pub fn labels(&self) -> (r: Vec<&'static str>)
        ensures
            str_views(r@) == self.spec_labels(),
            (r@.len() > 0) == (*self != DegradedCapabilities::spec_none()),
    {
        let mut labels: Vec<&'static str> = Vec::new();
        push_label(&mut labels, self.reach_graph, "reachGraph");
        push_label(&mut labels, self.include_table, "includeTable");
        push_label(&mut labels, self.reference_file_list, "referenceFileList");
        push_label(&mut labels, self.project_context, "projectContext");
        assert(str_views(labels@) =~= self.spec_labels());
        assert(labels@.len() == self.spec_labels().len());
        labels
    }
}

#[derive(Debug, Clone, PartialEq, Eq)]
pub struct IndexStats {
    pub total_files: usize,
    pub processed_files: usize,
    pub indexed_files: usize,
    pub skipped_files: usize,
    pub deleted_files: usize,
    pub symbols: usize,
    pub semantic_generation: u64,
    pub elapsed_ms: u128,
    pub discover_ms: u128,
    pub parse_ms: u128,
    pub write_ms: u128,
    pub check_ms: u128,
    pub include_edge_ms: u128,
    /// Source files whose inclusion edges were rebuilt by a partial update.
    pub include_edge_sources_rebuilt: Vec<String>,
    pub name_table_ms: u128,
    pub reach_graph_ms: u128,
}

impl IndexStats {
    /// Every count of these statistics is zero.
    pub open spec fn spec_zero(self) -> bool {
        &&& self.total_files == 0
        &&& self.processed_files == 0
        &&& self.indexed_files == 0
        &&& self.skipped_files == 0
        &&& self.deleted_files == 0
        &&& self.symbols == 0
        &&& self.semantic_generation == 0
        &&& self.elapsed_ms == 0
        &&& self.discover_ms == 0
        &&& self.parse_ms == 0
        &&& self.write_ms == 0
        &&& self.check_ms == 0
        &&& self.include_edge_ms == 0
        &&& self.include_edge_sources_rebuilt@.len() == 0
        &&& self.name_table_ms == 0
        &&& self.reach_graph_ms == 0
    }
}

impl Default for IndexStats {
    fn default() -> (r: Self)
        ensures
            r.spec_zero(),
    {
        IndexStats {
            total_files: 0,
            processed_files: 0,
            indexed_files: 0,
            skipped_files: 0,
            deleted_files: 0,
            symbols: 0,
            semantic_generation: 0,
            elapsed_ms: 0,
            discover_ms: 0,
            parse_ms: 0,
            write_ms: 0,
            check_ms: 0,
            include_edge_ms: 0,
            include_edge_sources_rebuilt: Vec::new(),
            name_table_ms: 0,
            reach_graph_ms: 0,
        }
    }
}

impl IndexStatus {
    /// The counts and times of a status are those of a run.
    pub open spec fn reports(self, stats: IndexStats) -> bool {
        &&& self.processed_files == stats.processed_files
        &&& self.total_files == stats.total_files
        &&& self.indexed_files == stats.indexed_files
        &&& self.skipped_files == stats.skipped_files
        &&& self.symbols == stats.symbols
        &&& self.semantic_generation == stats.semantic_generation
        &&& self.elapsed_ms == stats.elapsed_ms
        &&& self.discover_ms == stats.discover_ms
        &&& self.parse_ms == stats.parse_ms
        &&& self.write_ms == stats.write_ms
        &&& self.check_ms == stats.check_ms
        &&& self.include_edge_ms == stats.include_edge_ms
        &&& self.name_table_ms == stats.name_table_ms
        &&& self.reach_graph_ms == stats.reach_graph_ms
    }

    fn with_stats(
        state: IndexState,
        workspace: String,
        phase: Option<String>,
        stats: &IndexStats,
        degraded_capabilities: DegradedCapabilities,
        message: Option<String>,
    ) -> (r: Self)
        ensures
            r.reports(*stats),
            r.state == state,
            r.workspace == workspace,
            r.phase == phase,
            r.degraded_capabilities == degraded_capabilities,
            r.message == message,
    {
        IndexStatus {
            state,
            workspace,
            phase,
            processed_files: stats.processed_files,
            total_files: stats.total_files,
            indexed_files: stats.indexed_files,
            skipped_files: stats.skipped_files,
            symbols: stats.symbols,
            semantic_generation: stats.semantic_generation,
            elapsed_ms: stats.elapsed_ms,
            discover_ms: stats.discover_ms,
            parse_ms: stats.parse_ms,
            write_ms: stats.write_ms,
            check_ms: stats.check_ms,
            include_edge_ms: stats.include_edge_ms,
            name_table_ms: stats.name_table_ms,
            reach_graph_ms: stats.reach_graph_ms,
            degraded_capabilities,
            message,
        }
    }

    /// A run that is in the named phase.
    pub fn indexing_phase(workspace: String, stats: &IndexStats, phase: String) -> (r: Self)
        ensures
            r.reports(*stats),
            r.state == IndexState::Indexing,
            r.workspace == workspace,
            r.phase == Some(phase),
            r.degraded_capabilities == DegradedCapabilities::spec_none(),
            r.message is None,
    {
        IndexStatus::with_stats(
            IndexState::Indexing,
            workspace,
            Some(phase),
            stats,
            DegradedCapabilities::default(),
            None,
        )
    }

    /// A run that has something to say.
    pub fn indexing_with_message(workspace: String, stats: &IndexStats, message: String) -> (r:
        Self)
        ensures
            r.reports(*stats),
            r.state == IndexState::Indexing,
            r.workspace == workspace,
            r.phase is None,
            r.degraded_capabilities == DegradedCapabilities::spec_none(),
            r.message == Some(message),
    {
        IndexStatus::with_stats(
            IndexState::Indexing,
            workspace,
            None,
            stats,
            DegradedCapabilities::default(),
            Some(message),
        )
    }

    /// A finished run with every feature at full strength.
    pub fn ready(workspace: String, stats: &IndexStats) -> (r: Self)
        ensures
            r.reports(*stats),
            r.state == IndexState::Ready,
            r.workspace == workspace,
            r.phase is None,
            r.degraded_capabilities == DegradedCapabilities::spec_none(),
            r.message is None,
    {
        IndexStatus::ready_with_degraded(workspace, stats, DegradedCapabilities::default())
    }

    /// A finished run.
    pub fn ready_with_degraded(
        workspace: String,
        stats: &IndexStats,
        degraded_capabilities: DegradedCapabilities,
    ) -> (r: Self)
        ensures
            r.reports(*stats),
            r.state == IndexState::Ready,
            r.workspace == workspace,
            r.phase is None,
            r.degraded_capabilities == degraded_capabilities,
            r.message is None,
    {
        IndexStatus::with_stats(
            IndexState::Ready,
            workspace,
            None,
            stats,
            degraded_capabilities,
            None,
        )
    }

    /// A run that failed; it reports no counts.
    pub fn failed(workspace: String, message: String) -> (r: Self)
        ensures
            forall|zero: IndexStats| #[trigger] zero.spec_zero() ==> r.reports(zero),
            r.state == IndexState::Failed,
            r.workspace == workspace,
            r.phase is None,
            r.degraded_capabilities == DegradedCapabilities::spec_none(),
            r.message == Some(message),
    {
        IndexStatus::with_stats(
            IndexState::Failed,
            workspace,
            None,
            &IndexStats::default(),
            DegradedCapabilities::default(),
            Some(message),
        )
    }
}

} // verus!

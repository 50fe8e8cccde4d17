//! The engine facade the app shell talks to: the document, its undo/redo
//! history, the session mirror log, and the evaluation cache.

use vstd::prelude::*;
use std::collections::VecDeque;
use crate::apply::{AppliedEffect, apply_command, invalidation_closure, project_applied};
use crate::command::{Command, CommandView, CutRef, commands_view, commands_wf, copy_commands};
use crate::error::{CommandFault, EngineError};
use crate::memo::{cache_stays_right, keeps_cache, lemma_keeps_cache_start, lemma_keeps_cache_step, lemma_keeps_cache_use};
use crate::eval::{CacheKey, EvalStats, Evaluator, cache_agrees, cache_holds, cached_value, count_up, grows, cut_value, decimals_view, image_value, retain_spec};
use crate::ids::{ColumnId, CutId, DrawingId, ImageId, LayerId, NodeId, ParamId, SceneId};
use crate::model::{Cut, CutView, Project, ProjectView, Scene, SceneView, cut_pos, scene_pos};
use crate::step::{
    BatchFailure, batch_spec, closure_spec, cut_shape_eq, lemma_project_step_shape, lemma_same_shape_trans, project_step,
    replay_spec, rollback_spec, same_shape, scene_shape_eq, with_cut,
};
use crate::value::{Value, ValueView};
use crate::xsheet::{Column, ColumnView, ParamColumn, ParamColumnView};

verus! {

/// Abstract state of one undoable step.
pub struct StepView {
    pub label: Seq<char>,
    pub redo: Seq<CommandView>,
    pub undo: Seq<CommandView>,
    pub author: Option<Seq<char>>,
}

/// One undoable step: a labeled batch of commands and its inverse.
#[derive(Debug)]
struct Applied {
    label: String,
    redo: Vec<Command>,
    undo: Vec<Command>,
    /// Who authored this step; `None` = this machine's own hand. Runtime
    /// only, never saved.
    author: Option<String>,
}

pub open spec fn opt_text(o: Option<String>) -> Option<Seq<char>> {
    match o {
        Some(s) => Some(s@),
        None => None,
    }
}

pub open spec fn opt_str(o: Option<&str>) -> Option<Seq<char>> {
    match o {
        Some(s) => Some(s@),
        None => None,
    }
}

fn copy_opt_text(o: &Option<String>) -> (r: Option<String>)
    ensures
        opt_text(r) == opt_text(*o),
{
    match o {
        Some(s) => Some(s.clone()),
        None => None,
    }
}

impl Applied {
    spec fn view(&self) -> StepView {
        StepView { label: self.label@, redo: commands_view(self.redo@), undo: commands_view(self.undo@), author: opt_text(self.author) }
    }

    spec fn wf(&self) -> bool {
        commands_wf(self.redo@) && commands_wf(self.undo@)
    }
}

spec fn steps_view(s: Seq<Applied>) -> Seq<StepView> {
    s.map_values(|a: Applied| a.view())
}

spec fn steps_wf(s: Seq<Applied>) -> bool {
    forall|i: int| 0 <= i < s.len() ==> (#[trigger] s[i]).wf()
}

#[derive(Debug)]
struct History {
    undo_stack: VecDeque<Applied>,
    redo_stack: Vec<Applied>,
    /// Max undo steps kept; 0 = unlimited.
    limit: usize,
}

impl History {
    /// Drop the oldest undo steps beyond the limit (0 = unlimited).
    fn trim(&mut self)
        requires
            steps_wf(old(self).undo_stack@),
        ensures
            steps_view(final(self).undo_stack@) == trimmed(steps_view(old(self).undo_stack@), old(self).limit as nat),
            steps_wf(final(self).undo_stack@),
            final(self).redo_stack == old(self).redo_stack,
            final(self).limit == old(self).limit,
    {
        let ghost full = self.undo_stack@;
        if self.limit > 0 {
            while self.undo_stack.len() > self.limit
                invariant
                    self.limit > 0,
                    self.limit == old(self).limit,
                    self.redo_stack == old(self).redo_stack,
                    full.len() >= self.undo_stack@.len(),
                    self.undo_stack@ == full.skip(full.len() - self.undo_stack@.len()),
                    self.undo_stack@.len() >= self.limit || self.undo_stack@ == full,
                decreases self.undo_stack@.len(),
            {
                let ghost before = self.undo_stack@;
                let _dropped = self.undo_stack.pop_front();
                proof {
                    assert(self.undo_stack@ =~= full.skip(full.len() - self.undo_stack@.len()));
                }
            }
            proof {
                let n = self.undo_stack@.len();
                if full.len() > self.limit {
                    assert(n == self.limit);
                } else {
                    assert(self.undo_stack@ =~= full);
                }
                assert(steps_view(self.undo_stack@) =~= trimmed(steps_view(full), self.limit as nat));
                assert forall|k: int| 0 <= k < n implies (#[trigger] self.undo_stack@[k]).wf() by {
                    assert(self.undo_stack@[k] == full[k + full.len() - n]);
                }
            }
        }
    }
}

/// Abstract state of the engine.
pub struct EngineView {
    pub project: ProjectView,
    /// Undoable steps, oldest first.
    pub undo: Seq<StepView>,
    /// Redoable steps, the next one to redo last.
    pub redo: Seq<StepView>,
    /// Max undo steps kept; 0 = unlimited.
    pub limit: nat,
    /// The author the next applied step belongs to.
    pub author: Option<Seq<char>>,
    /// Whether applied batches are logged for mirroring.
    pub mirror_log: bool,
    /// Batches applied since the last drain, oldest first.
    pub log: Seq<Seq<CommandView>>,
    /// The evaluation cache.
    pub cache: Seq<(CacheKey, ValueView)>,
    /// The evaluation counters.
    pub stats: EvalStats,
}

/// Every sheet column id in the project is below `n`: ids handed out from
/// the counter are fresh.
pub open spec fn columns_below(p: ProjectView, n: u64) -> bool {
    forall|si: int, ci: int, k: int|
        0 <= si < p.scenes.len() && 0 <= ci < p.scenes[si].cuts.len() && 0 <= k < p.scenes[si].cuts[ci].columns.len()
            ==> #[trigger] p.scenes[si].cuts[ci].columns[k].id < n
}

/// The undo stack after pushing onto `s` with this limit: only the newest
/// `limit` steps are kept (0 = keep all).
pub open spec fn trimmed(s: Seq<StepView>, limit: nat) -> Seq<StepView> {
    if limit > 0 && s.len() > limit {
        s.skip(s.len() - limit)
    } else {
        s
    }
}

pub struct Engine {
    pub project: Project,
    current_author: Option<String>,
    /// When on, every successfully applied batch is also logged for the
    /// host to stream to guests. Runtime only.
    pub mirror_log: bool,
    applied_log: Vec<Vec<Command>>,
    pub evaluator: Evaluator,
    history: History,
}

impl Engine {
    pub closed spec fn view(&self) -> EngineView {
        EngineView {
            project: self.project.view(),
            undo: steps_view(self.history.undo_stack@),
            redo: steps_view(self.history.redo_stack@),
            limit: self.history.limit as nat,
            author: opt_text(self.current_author),
            mirror_log: self.mirror_log,
            log: self.applied_log@.map_values(|b: Vec<Command>| commands_view(b@)),
            cache: self.evaluator.cache(),
            stats: self.evaluator.counters(),
        }
    }

    /// The engine's invariant: the document is well formed, ids handed out
    /// are fresh, and every stored command is well formed.
    pub closed spec fn wf(&self) -> bool {
        &&& self.project.wf()
        &&& columns_below(self.project.view(), self.project.next_id)
        &&& steps_wf(self.history.undo_stack@)
        &&& steps_wf(self.history.redo_stack@)
        &&& forall|i: int| 0 <= i < self.applied_log@.len() ==> commands_wf((#[trigger] self.applied_log@[i])@)
    }

    /// A well-formed engine holds a well-formed document: in every cut
    /// node ids ascend, wires name existing nodes, the wiring has no cycle,
    /// pins match their kinds, the output exists, column ids are unique and
    /// every exposed drawing is in the library, whose order lists it once.
    pub proof fn lemma_wf_document(&self)
        requires
            self.wf(),
        ensures
            crate::laws::project_view_wf(self@.project),
    {
        crate::laws::lemma_project_wf_view(self.project);
    }

    pub fn new(name: String) -> (e: Self)
        ensures
            e.wf(),
            e@.project.name == name@,
            e@.project.fps == 24,
            e@.project.width == 1920,
            e@.project.height == 1080,
            e@.project.dpi == crate::model::DPI_300,
            e@.project.scenes.len() == 0,
            e@.project.next_id == 1,
            e@.project.app_meta.len() == 0,
            e@.undo.len() == 0,
            e@.redo.len() == 0,
            e@.limit == 0,
            e@.author is None,
            !e@.mirror_log,
            e@.log.len() == 0,
            e@.cache.len() == 0,
    {
        let e = Engine {
            project: Project::new(name),
            current_author: None,
            mirror_log: false,
            applied_log: Vec::new(),
            evaluator: Evaluator::new(),
            history: History { undo_stack: VecDeque::new(), redo_stack: Vec::new(), limit: 0 },
        };
        proof {
            assert(e.project.view().scenes.len() == 0);
        }
        e
    }

    // ---- Structure setup (not undoable) ----------------------------------------
    // Creating scenes, cuts and columns is project scaffolding; editing
    // inside a cut is the undoable workflow.

    pub fn add_scene(&mut self, name: String) -> (id: SceneId)
        requires
            old(self).wf(),
            old(self)@.project.next_id < u64::MAX,
        ensures
            final(self).wf(),
            id.0 == old(self)@.project.next_id,
            final(self)@ == (EngineView {
                project: ProjectView {
                    scenes: old(self)@.project.scenes.push(SceneView { id, name: name@, cuts: Seq::empty() }),
                    next_id: (old(self)@.project.next_id + 1) as u64,
                    ..old(self)@.project
                },
                ..old(self)@
            }),
    {
        let id = SceneId(self.project.alloc_id());
        let ghost pre = self.project.scenes@;
        let scene = Scene { id, name, cuts: Vec::new() };
        self.project.scenes.push(scene);
        proof {
            assert(scene.view().cuts =~= Seq::<CutView>::empty());
            assert(crate::model::scenes_view(self.project.scenes@) =~= crate::model::scenes_view(pre).push(scene.view()));
            assert forall|i: int| 0 <= i < self.project.scenes@.len() implies (#[trigger] self.project.scenes@[i]).wf() by {
                if i < pre.len() {
                    assert(pre[i].wf());
                }
            }
        }
        id
    }

    pub fn add_cut(&mut self, scene: SceneId, name: String, frame_count: u32) -> (r: Result<CutId, EngineError>)
        requires
            old(self).wf(),
            old(self)@.project.next_id < u64::MAX,
        ensures
            final(self).wf(),
            final(self)@.project.next_id == old(self)@.project.next_id + 1,
            match scene_pos(old(self)@.project.scenes, scene) {
                None => r == Err::<CutId, EngineError>(EngineError::UnknownScene(scene))
                    && final(self)@ == (EngineView {
                        project: ProjectView { next_id: final(self)@.project.next_id, ..old(self)@.project },
                        ..old(self)@
                    }),
                Some(si) => r == Ok::<CutId, EngineError>(CutId(old(self)@.project.next_id))
                    && final(self)@ == (EngineView {
                        project: ProjectView {
                            next_id: final(self)@.project.next_id,
                            scenes: old(self)@.project.scenes.update(si, SceneView {
                                cuts: old(self)@.project.scenes[si].cuts.push(final(self)@.project.scenes[si].cuts.last()),
                                ..old(self)@.project.scenes[si]
                            }),
                            ..old(self)@.project
                        },
                        ..old(self)@
                    })
                    && final(self)@.project.scenes[si].cuts.last().id == CutId(old(self)@.project.next_id)
                    && final(self)@.project.scenes[si].cuts.last().name == name@
                    && final(self)@.project.scenes[si].cuts.last().frame_count == frame_count
                    && final(self)@.project.scenes[si].cuts.last().drawings == Map::<DrawingId, crate::model::DrawingView>::empty()
                    && final(self)@.project.scenes[si].cuts.last().columns.len() == 0
                    && final(self)@.project.scenes[si].cuts.last().params.len() == 0
                    && final(self)@.project.scenes[si].cuts.last().graph.nodes.len() == 0
                    && final(self)@.project.scenes[si].cuts.last().graph.output is None
                    && final(self)@.project.scenes[si].cuts.last().images.len() == 0,
            },
    {
        let id = CutId(self.project.alloc_id());
        let si = match self.project.scene_index(scene) {
            Some(i) => i,
            None => {
                return Err(EngineError::UnknownScene(scene));
            },
        };
        let ghost p0 = self.project.view();
        let ghost scenes0 = self.project.scenes@;
        let ghost cuts0 = self.project.scenes@[si as int].cuts@;
        let cut = Cut::new(id, name, frame_count);
        proof {
            assert(scenes0[si as int].wf());
            assert(cut.view().drawings =~= Map::<DrawingId, crate::model::DrawingView>::empty());
        }
        self.project.scenes[si].cuts.push(cut);
        proof {
            let ns = self.project.scenes@[si as int];
            assert(self.project.scenes@ =~= scenes0.update(si as int, ns));
            assert(ns.cuts@ =~= cuts0.push(cut));
            assert(crate::model::cuts_view(ns.cuts@) =~= p0.scenes[si as int].cuts.push(cut.view()));
            assert(crate::model::scenes_view(self.project.scenes@) =~= p0.scenes.update(si as int, ns.view()));
            assert forall|i: int| 0 <= i < self.project.scenes@.len() implies (#[trigger] self.project.scenes@[i]).wf() by {
                if i != si {
                    assert(scenes0[i].wf());
                } else {
                    assert forall|j: int| 0 <= j < ns.cuts@.len() implies (#[trigger] ns.cuts@[j]).wf() by {
                        if j < cuts0.len() {
                            assert(cuts0[j].wf());
                        }
                    }
                }
            }
            let pv = self.project.view();
            assert forall|a: int, b: int, k: int|
                0 <= a < pv.scenes.len() && 0 <= b < pv.scenes[a].cuts.len() && 0 <= k < pv.scenes[a].cuts[b].columns.len()
                    implies #[trigger] pv.scenes[a].cuts[b].columns[k].id < self.project.next_id by {
                if a == si && b == cuts0.len() {
                    assert(pv.scenes[a].cuts[b].columns.len() == 0);
                } else {
                    assert(pv.scenes[a].cuts[b] == p0.scenes[a].cuts[b]);
                }
            }
        }
        Ok(id)
    }
}

/// The scene and cut an address names: the first scene with that id, then
/// its first cut with that id.
pub open spec fn locate(p: ProjectView, at: CutRef) -> Option<(int, int)> {
    match scene_pos(p.scenes, at.scene) {
        None => None,
        Some(si) => match cut_pos(p.scenes[si].cuts, at.cut) {
            None => None,
            Some(ci) => Some((si, ci)),
        },
    }
}

/// Indices of the cut an address names.
fn cut_indices(project: &Project, at: CutRef) -> (r: Option<(usize, usize)>)
    ensures
        match r {
            Some((si, ci)) => locate(project.view(), at) == Some((si as int, ci as int)) && si < project.scenes@.len()
                && ci < project.scenes@[si as int].cuts@.len(),
            None => locate(project.view(), at) is None,
        },
{
    let si = match project.scene_index(at.scene) {
        Some(i) => i,
        None => { return None; },
    };
    match project.cut_index(si, at.cut) {
        Some(ci) => Some((si, ci)),
        None => None,
    }
}

/// A project that differs from `p0` only in the cut at (si, ci).
pub open spec fn only_cut_changed(p0: Project, p1: Project, si: int, ci: int) -> bool {
    &&& 0 <= si < p0.scenes@.len()
    &&& 0 <= ci < p0.scenes@[si].cuts@.len()
    &&& p1.scenes@.len() == p0.scenes@.len()
    &&& forall|i: int| 0 <= i < p0.scenes@.len() && i != si ==> #[trigger] p1.scenes@[i] == p0.scenes@[i]
    &&& p1.scenes@[si].id == p0.scenes@[si].id
    &&& p1.scenes@[si].name == p0.scenes@[si].name
    &&& p1.scenes@[si].cuts@.len() == p0.scenes@[si].cuts@.len()
    &&& forall|j: int| 0 <= j < p0.scenes@[si].cuts@.len() && j != ci ==> #[trigger] p1.scenes@[si].cuts@[j] == p0.scenes@[si].cuts@[j]
    &&& p1.name == p0.name
    &&& p1.fps == p0.fps
    &&& p1.width == p0.width
    &&& p1.height == p0.height
    &&& p1.dpi == p0.dpi
    &&& p1.app_meta == p0.app_meta
}

proof fn lemma_only_cut_changed(p0: Project, p1: Project, si: int, ci: int)
    requires
        only_cut_changed(p0, p1, si, ci),
        p0.wf(),
        p1.scenes@[si].cuts@[ci].wf(),
    ensures
        p1.wf(),
        p1.view() == with_cut(ProjectView { next_id: p1.next_id, ..p0.view() }, si, ci, p1.scenes@[si].cuts@[ci].view()),
        forall|a: int, b: int| 0 <= a < p1.view().scenes.len() && 0 <= b < p1.view().scenes[a].cuts.len() && !(a == si && b == ci)
            ==> #[trigger] p1.view().scenes[a].cuts[b] == p0.view().scenes[a].cuts[b],
        p1.view().scenes[si].cuts[ci] == p1.scenes@[si].cuts@[ci].view(),
{
    let p0n = Project { next_id: p1.next_id, ..p0 };
    crate::apply::lemma_with_cut(p0n, p1, si, ci);
    assert(p0n.view() == ProjectView { next_id: p1.next_id, ..p0.view() });
    assert forall|i: int| 0 <= i < p1.scenes@.len() implies (#[trigger] p1.scenes@[i]).wf() by {
        if i != si {
            assert(p0.scenes@[i].wf());
        } else {
            assert forall|j: int| 0 <= j < p1.scenes@[si].cuts@.len() implies (#[trigger] p1.scenes@[si].cuts@[j]).wf() by {
                if j != ci {
                    assert(p0.scenes@[si].wf());
                    assert(p0.scenes@[si].cuts@[j].wf());
                }
            }
        }
    }
    assert forall|a: int, b: int| 0 <= a < p1.view().scenes.len() && 0 <= b < p1.view().scenes[a].cuts.len() && !(a == si && b == ci)
        implies #[trigger] p1.view().scenes[a].cuts[b] == p0.view().scenes[a].cuts[b] by {
        if a != si {
            assert(p1.scenes@[a] == p0.scenes@[a]);
        } else {
            assert(p1.scenes@[si].cuts@[b] == p0.scenes@[si].cuts@[b]);
        }
    }
}

impl Engine {
    pub fn add_column(&mut self, at: CutRef, name: String) -> (r: Result<ColumnId, EngineError>)
        requires
            old(self).wf(),
            old(self)@.project.next_id < u64::MAX,
        ensures
            final(self).wf(),
            final(self)@.project.next_id == old(self)@.project.next_id + 1,
            match locate(old(self)@.project, at) {
                None => r == Err::<ColumnId, EngineError>(EngineError::UnknownCut(at.cut))
                    && final(self)@ == (EngineView {
                        project: ProjectView { next_id: final(self)@.project.next_id, ..old(self)@.project },
                        ..old(self)@
                    }),
                Some((si, ci)) => r == Ok::<ColumnId, EngineError>(ColumnId(old(self)@.project.next_id))
                    && final(self)@ == (EngineView {
                        project: with_cut(
                            ProjectView { next_id: final(self)@.project.next_id, ..old(self)@.project },
                            si,
                            ci,
                            CutView {
                                columns: old(self)@.project.scenes[si].cuts[ci].columns.push(ColumnView {
                                    id: old(self)@.project.next_id,
                                    name: name@,
                                    keys: Map::empty(),
                                }),
                                ..old(self)@.project.scenes[si].cuts[ci]
                            },
                        ),
                        ..old(self)@
                    }),
            },
    {
        let id = ColumnId(self.project.alloc_id());
        let (si, ci) = match cut_indices(&self.project, at) {
            Some(p) => p,
            None => { return Err(EngineError::UnknownCut(at.cut)); },
        };
        let ghost p0 = self.project;
        let ghost c0 = self.project.scenes@[si as int].cuts@[ci as int];
        proof {
            assert(self.project.scenes@[si as int].wf());
            assert(c0.wf());
        }
        let col = Column::new(id, name);
        self.project.scenes[si].cuts[ci].xsheet.columns.push(col);
        proof {
            let c1 = self.project.scenes@[si as int].cuts@[ci as int];
            let cols0 = crate::model::columns_view(c0.xsheet.columns@);
            assert(crate::model::columns_view(c1.xsheet.columns@) =~= cols0.push(col.view()));
            assert(col.view().keys =~= Map::<u32, crate::xsheet::Exposure>::empty());
            assert(p0.view().scenes[si as int].cuts[ci as int] == c0.view());
            assert forall|k: int| 0 <= k < cols0.len() implies #[trigger] cols0[k].id < id.0 by {
                assert(p0.view().scenes[si as int].cuts[ci as int].columns[k].id < id.0);
            }
            assert forall|i: int| 0 <= i < c1.xsheet.columns@.len() implies (#[trigger] c1.xsheet.columns@[i]).wf() by {
                if i < c0.xsheet.columns@.len() {
                    assert(c0.xsheet.columns@[i].wf());
                }
            }
            let cv1 = crate::model::columns_view(c1.xsheet.columns@);
            assert forall|a: int, b: int| 0 <= a < b < cv1.len() implies #[trigger] cv1[a].id != #[trigger] cv1[b].id by {
                if b < cols0.len() {
                    assert(cols0[a].id != cols0[b].id);
                } else {
                    assert(cols0[a].id < id.0);
                }
            }
            assert(c1.wf());
            lemma_only_cut_changed(p0, self.project, si as int, ci as int);
            let pv = self.project.view();
            assert forall|a: int, b: int, k: int|
                0 <= a < pv.scenes.len() && 0 <= b < pv.scenes[a].cuts.len() && 0 <= k < pv.scenes[a].cuts[b].columns.len()
                    implies #[trigger] pv.scenes[a].cuts[b].columns[k].id < self.project.next_id by {
                if a == si && b == ci {
                    if k < cols0.len() {
                        assert(cols0[k].id < id.0);
                    }
                } else {
                    assert(pv.scenes[a].cuts[b] == p0.view().scenes[a].cuts[b]);
                    assert(p0.view().scenes[a].cuts[b].columns[k].id < p0.next_id);
                }
            }
        }
        Ok(id)
    }
}

/// The columns other than `id`, in order.
pub open spec fn without_column(cols: Seq<ColumnView>, id: ColumnId) -> Seq<ColumnView>
    decreases cols.len(),
{
    if cols.len() == 0 {
        Seq::empty()
    } else {
        let r = without_column(cols.drop_last(), id);
        if cols.last().id == id.0 { r } else { r.push(cols.last()) }
    }
}

/// Where the `k`th kept column came from.
pub open spec fn lemma_witness(cols: Seq<ColumnView>, id: ColumnId, k: int) -> int
    decreases cols.len(),
{
    if cols.len() == 0 {
        0
    } else if cols.last().id != id.0 && k == without_column(cols.drop_last(), id).len() {
        cols.len() - 1
    } else {
        lemma_witness(cols.drop_last(), id, k)
    }
}

/// The kept columns come from the original, in order.
pub proof fn lemma_without_column(cols: Seq<ColumnView>, id: ColumnId)
    ensures
        without_column(cols, id).len() <= cols.len(),
        forall|k: int| 0 <= k < without_column(cols, id).len() ==> 0 <= #[trigger] lemma_witness(cols, id, k) < cols.len()
            && cols[lemma_witness(cols, id, k)] == without_column(cols, id)[k],
        forall|a: int, b: int| 0 <= a < b < without_column(cols, id).len() ==> #[trigger] lemma_witness(cols, id, a) < #[trigger] lemma_witness(cols, id, b),
    decreases cols.len(),
{
    if cols.len() > 0 {
        let d = cols.drop_last();
        let rd = without_column(d, id);
        let r = without_column(cols, id);
        lemma_without_column(d, id);
        assert forall|k: int| 0 <= k < r.len() implies 0 <= #[trigger] lemma_witness(cols, id, k) < cols.len()
            && cols[lemma_witness(cols, id, k)] == r[k] by {
            if cols.last().id != id.0 && k == rd.len() {
            } else {
                assert(lemma_witness(cols, id, k) == lemma_witness(d, id, k));
                assert(d[lemma_witness(d, id, k)] == rd[k]);
            }
        }
        assert forall|a: int, b: int| 0 <= a < b < r.len() implies #[trigger] lemma_witness(cols, id, a) < #[trigger] lemma_witness(cols, id, b) by {
            assert(lemma_witness(cols, id, a) == lemma_witness(d, id, a));
            if cols.last().id != id.0 && b == rd.len() {
                assert(lemma_witness(d, id, a) < d.len());
            } else {
                assert(lemma_witness(cols, id, b) == lemma_witness(d, id, b));
            }
        }
    }
}

impl Engine {
    /// Rename a scene (setup data; not undoable).
    pub fn rename_scene(&mut self, scene: SceneId, name: String) -> (r: Result<(), EngineError>)
        requires
            old(self).wf(),
        ensures
            final(self).wf(),
            match scene_pos(old(self)@.project.scenes, scene) {
                None => r == Err::<(), EngineError>(EngineError::UnknownScene(scene)) && final(self)@ == old(self)@,
                Some(si) => r is Ok && final(self)@ == (EngineView {
                    project: ProjectView {
                        scenes: old(self)@.project.scenes.update(si, SceneView { name: name@, ..old(self)@.project.scenes[si] }),
                        ..old(self)@.project
                    },
                    ..old(self)@
                }),
            },
    {
        let si = match self.project.scene_index(scene) {
            Some(i) => i,
            None => { return Err(EngineError::UnknownScene(scene)); },
        };
        let ghost p0 = self.project;
        self.project.scenes[si].name = name;
        proof {
            let ns = self.project.scenes@[si as int];
            assert(self.project.scenes@ =~= p0.scenes@.update(si as int, ns));
            assert(crate::model::scenes_view(self.project.scenes@) =~= p0.view().scenes.update(si as int, ns.view()));
            assert forall|i: int| 0 <= i < self.project.scenes@.len() implies (#[trigger] self.project.scenes@[i]).wf() by {
                assert(p0.scenes@[i].wf());
                if i == si {
                    assert forall|j: int| 0 <= j < ns.cuts@.len() implies (#[trigger] ns.cuts@[j]).wf() by {
                        assert(p0.scenes@[si as int].cuts@[j].wf());
                    }
                }
            }
            let pv = self.project.view();
            assert forall|a: int, b: int, k: int|
                0 <= a < pv.scenes.len() && 0 <= b < pv.scenes[a].cuts.len() && 0 <= k < pv.scenes[a].cuts[b].columns.len()
                    implies #[trigger] pv.scenes[a].cuts[b].columns[k].id < self.project.next_id by {
                assert(pv.scenes[a].cuts[b] == p0.view().scenes[a].cuts[b]);
            }
        }
        Ok(())
    }

    /// Rename a cut (setup data; not undoable).
    pub fn rename_cut(&mut self, at: CutRef, name: String) -> (r: Result<(), EngineError>)
        requires
            old(self).wf(),
        ensures
            final(self).wf(),
            match locate(old(self)@.project, at) {
                None => r == Err::<(), EngineError>(EngineError::UnknownCut(at.cut)) && final(self)@ == old(self)@,
                Some((si, ci)) => r is Ok && final(self)@ == (EngineView {
                    project: with_cut(old(self)@.project, si, ci, CutView { name: name@, ..old(self)@.project.scenes[si].cuts[ci] }),
                    ..old(self)@
                }),
            },
    {
        let (si, ci) = match cut_indices(&self.project, at) {
            Some(p) => p,
            None => { return Err(EngineError::UnknownCut(at.cut)); },
        };
        let ghost p0 = self.project;
        proof {
            assert(self.project.scenes@[si as int].wf());
            assert(self.project.scenes@[si as int].cuts@[ci as int].wf());
        }
        self.project.scenes[si].cuts[ci].name = name;
        proof {
            lemma_only_cut_changed(p0, self.project, si as int, ci as int);
            assert(ProjectView { next_id: self.project.next_id, ..p0.view() } == p0.view());
            let pv = self.project.view();
            assert forall|a: int, b: int, k: int|
                0 <= a < pv.scenes.len() && 0 <= b < pv.scenes[a].cuts.len() && 0 <= k < pv.scenes[a].cuts[b].columns.len()
                    implies #[trigger] pv.scenes[a].cuts[b].columns[k].id < self.project.next_id by {
                if a == si && b == ci {
                    assert(pv.scenes[a].cuts[b].columns == p0.view().scenes[a].cuts[b].columns);
                }
                assert(p0.view().scenes[a].cuts[b].columns[k].id < p0.next_id);
            }
        }
        Ok(())
    }

    /// Add a parameter column (camera etc.); keys on it are edited later.
    pub fn add_param_column(&mut self, at: CutRef, name: String) -> (r: Result<ParamId, EngineError>)
        requires
            old(self).wf(),
            old(self)@.project.next_id < u64::MAX,
        ensures
            final(self).wf(),
            final(self)@.project.next_id == old(self)@.project.next_id + 1,
            match locate(old(self)@.project, at) {
                None => r == Err::<ParamId, EngineError>(EngineError::UnknownCut(at.cut))
                    && final(self)@ == (EngineView {
                        project: ProjectView { next_id: final(self)@.project.next_id, ..old(self)@.project },
                        ..old(self)@
                    }),
                Some((si, ci)) => r == Ok::<ParamId, EngineError>(ParamId(old(self)@.project.next_id))
                    && final(self)@ == (EngineView {
                        project: with_cut(
                            ProjectView { next_id: final(self)@.project.next_id, ..old(self)@.project },
                            si,
                            ci,
                            CutView {
                                params: old(self)@.project.scenes[si].cuts[ci].params.push(ParamColumnView {
                                    id: ParamId(old(self)@.project.next_id),
                                    name: name@,
                                    keys: Map::empty(),
                                }),
                                ..old(self)@.project.scenes[si].cuts[ci]
                            },
                        ),
                        ..old(self)@
                    }),
            },
    {
        let id = ParamId(self.project.alloc_id());
        let (si, ci) = match cut_indices(&self.project, at) {
            Some(p) => p,
            None => { return Err(EngineError::UnknownCut(at.cut)); },
        };
        let ghost p0 = self.project;
        let ghost c0 = self.project.scenes@[si as int].cuts@[ci as int];
        proof {
            assert(self.project.scenes@[si as int].wf());
            assert(c0.wf());
        }
        let pc = ParamColumn::new(id, name);
        self.project.scenes[si].cuts[ci].xsheet.params.push(pc);
        proof {
            let c1 = self.project.scenes@[si as int].cuts@[ci as int];
            assert(crate::model::params_view(c1.xsheet.params@) =~= crate::model::params_view(c0.xsheet.params@).push(pc.view()));
            assert(pc.view().keys =~= Map::<u32, crate::xsheet::ParamKey>::empty());
            assert forall|i: int| 0 <= i < c1.xsheet.params@.len() implies (#[trigger] c1.xsheet.params@[i]).wf() by {
                if i < c0.xsheet.params@.len() {
                    assert(c0.xsheet.params@[i].wf());
                }
            }
            assert(c1.wf());
            lemma_only_cut_changed(p0, self.project, si as int, ci as int);
            let pv = self.project.view();
            assert forall|a: int, b: int, k: int|
                0 <= a < pv.scenes.len() && 0 <= b < pv.scenes[a].cuts.len() && 0 <= k < pv.scenes[a].cuts[b].columns.len()
                    implies #[trigger] pv.scenes[a].cuts[b].columns[k].id < self.project.next_id by {
                assert(pv.scenes[a].cuts[b].columns == p0.view().scenes[a].cuts[b].columns);
                assert(p0.view().scenes[a].cuts[b].columns[k].id < p0.next_id);
            }
        }
        Ok(id)
    }

    /// Remove a column and its exposures (not undoable). Drawings stay in
    /// the cut's library; every cached value is dropped.
    pub fn remove_column(&mut self, at: CutRef, column: ColumnId)
        requires
            old(self).wf(),
        ensures
            final(self).wf(),
            match locate(old(self)@.project, at) {
                None => final(self)@ == old(self)@,
                Some((si, ci)) => final(self)@ == (EngineView {
                    project: with_cut(old(self)@.project, si, ci, CutView {
                        columns: without_column(old(self)@.project.scenes[si].cuts[ci].columns, column),
                        ..old(self)@.project.scenes[si].cuts[ci]
                    }),
                    cache: Seq::empty(),
                    ..old(self)@
                }),
            },
    {
        let (si, ci) = match cut_indices(&self.project, at) {
            Some(p) => p,
            None => { return; },
        };
        let ghost p0 = self.project;
        let ghost c0 = self.project.scenes@[si as int].cuts@[ci as int];
        let ghost cols0 = crate::model::columns_view(c0.xsheet.columns@);
        proof {
            assert(self.project.scenes@[si as int].wf());
            assert(c0.wf());
        }
        let mut i: usize = 0;
        let ghost mut j: int = 0;
        while i < self.project.scenes[si].cuts[ci].xsheet.columns.len()
            invariant
                si < self.project.scenes@.len(),
                ci < self.project.scenes@[si as int].cuts@.len(),
                only_cut_changed(p0, self.project, si as int, ci as int),
                self.project.next_id == p0.next_id,
                p0 == old(self).project,
                self.history == old(self).history,
                self.evaluator == old(self).evaluator,
                self.applied_log == old(self).applied_log,
                self.current_author == old(self).current_author,
                self.mirror_log == old(self).mirror_log,
                0 <= j <= cols0.len(),
                self.project.scenes@[si as int].cuts@[ci as int] == (Cut {
                    xsheet: crate::xsheet::XSheet { columns: self.project.scenes@[si as int].cuts@[ci as int].xsheet.columns, ..c0.xsheet },
                    ..c0
                }),
                crate::model::columns_view(self.project.scenes@[si as int].cuts@[ci as int].xsheet.columns@)
                    == without_column(cols0.take(j), column) + cols0.skip(j),
                i == without_column(cols0.take(j), column).len(),
                forall|k: int| 0 <= k < self.project.scenes@[si as int].cuts@[ci as int].xsheet.columns@.len()
                    ==> (#[trigger] self.project.scenes@[si as int].cuts@[ci as int].xsheet.columns@[k]).wf(),
            decreases cols0.len() - j,
        {
            let ghost cur = crate::model::columns_view(self.project.scenes@[si as int].cuts@[ci as int].xsheet.columns@);
            proof {
                assert(cur[i as int] == cols0[j]);
                assert(cols0.take(j + 1).drop_last() =~= cols0.take(j));
                assert(cols0.take(j + 1).last() == cols0[j]);
            }
            if self.project.scenes[si].cuts[ci].xsheet.columns[i].id == column {
                let ghost xs = self.project.scenes@[si as int].cuts@[ci as int].xsheet.columns@;
                let _removed = self.project.scenes[si].cuts[ci].xsheet.columns.remove(i);
                proof {
                    let now = self.project.scenes@[si as int].cuts@[ci as int].xsheet.columns@;
                    assert(now =~= xs.remove(i as int));
                    assert(cols0[j].id == column.0);
                    assert(without_column(cols0.take(j + 1), column) == without_column(cols0.take(j), column));
                    assert(crate::model::columns_view(now) =~= cur.remove(i as int));
                    assert(cur.remove(i as int) =~= without_column(cols0.take(j), column) + cols0.skip(j + 1));
                    assert(crate::model::columns_view(now) =~= without_column(cols0.take(j + 1), column) + cols0.skip(j + 1));
                    assert forall|k: int| 0 <= k < now.len() implies (#[trigger] now[k]).wf() by {
                        if k < i {
                            assert(xs[k].wf());
                        } else {
                            assert(xs[k + 1].wf());
                        }
                    }
                    j = j + 1;
                }
            } else {
                i = i + 1;
                proof {
                    assert(without_column(cols0.take(j + 1), column) =~= without_column(cols0.take(j), column).push(cols0[j]));
                    assert(cur =~= without_column(cols0.take(j + 1), column) + cols0.skip(j + 1));
                    j = j + 1;
                }
            }
        }
        proof {
            assert(cols0.take(j) =~= cols0);
            assert(cols0.skip(j) =~= Seq::<ColumnView>::empty());
            let c1 = self.project.scenes@[si as int].cuts@[ci as int];
            let cv1 = crate::model::columns_view(c1.xsheet.columns@);
            assert(cv1 =~= without_column(cols0, column));
            lemma_without_column(cols0, column);
            assert forall|a: int, b: int| 0 <= a < b < cv1.len() implies #[trigger] cv1[a].id != #[trigger] cv1[b].id by {
                assert(cols0[lemma_witness(cols0, column, a)] == cv1[a]);
                assert(cols0[lemma_witness(cols0, column, b)] == cv1[b]);
                assert(lemma_witness(cols0, column, a) < lemma_witness(cols0, column, b));
            }
            assert forall|k: int, f: u32|
                0 <= k < cv1.len() && #[trigger] cv1[k].keys.contains_key(f) && cv1[k].keys[f] is Drawing
                    implies crate::model::drawing_map(c1.drawings@).contains_key(cv1[k].keys[f]->Drawing_0) by {
                let m = lemma_witness(cols0, column, k);
                assert(cols0[m] == cv1[k]);
                assert(cols0[m].keys.contains_key(f));
            }
            assert(c1.wf());
            lemma_only_cut_changed(p0, self.project, si as int, ci as int);
            assert(ProjectView { next_id: self.project.next_id, ..p0.view() } == p0.view());
            let pv = self.project.view();
            assert forall|a: int, b: int, k: int|
                0 <= a < pv.scenes.len() && 0 <= b < pv.scenes[a].cuts.len() && 0 <= k < pv.scenes[a].cuts[b].columns.len()
                    implies #[trigger] pv.scenes[a].cuts[b].columns[k].id < self.project.next_id by {
                if a == si && b == ci {
                    let m = lemma_witness(cols0, column, k);
                    assert(cols0[m] == cv1[k]);
                    assert(p0.view().scenes[a].cuts[b].columns[m].id < p0.next_id);
                } else {
                    assert(p0.view().scenes[a].cuts[b].columns[k].id < p0.next_id);
                }
            }
        }
        self.evaluator.invalidate_all();
    }
}

pub proof fn lemma_to_set_concat(a: Seq<NodeId>, b: Seq<NodeId>)
    ensures
        (a + b).to_set() == a.to_set() + b.to_set(),
{
    assert forall|x: NodeId| #[trigger] (a + b).to_set().contains(x) <==> (a.to_set() + b.to_set()).contains(x) by {
        if (a + b).contains(x) {
            let k = choose|k: int| 0 <= k < (a + b).len() && (a + b)[k] == x;
            if k < a.len() {
                assert(a[k] == x);
            } else {
                assert(b[k - a.len()] == x);
            }
        }
        if a.contains(x) {
            let k = choose|k: int| 0 <= k < a.len() && a[k] == x;
            assert((a + b)[k] == x);
        }
        if b.contains(x) {
            let k = choose|k: int| 0 <= k < b.len() && b[k] == x;
            assert((a + b)[k + a.len()] == x);
        }
    }
    assert((a + b).to_set() =~= a.to_set() + b.to_set());
}

pub proof fn lemma_columns_below_shape(p: ProjectView, q: ProjectView, n: u64)
    requires
        columns_below(p, n),
        same_shape(p, q),
    ensures
        columns_below(q, n),
{
    assert forall|si: int, ci: int, k: int|
        0 <= si < q.scenes.len() && 0 <= ci < q.scenes[si].cuts.len() && 0 <= k < q.scenes[si].cuts[ci].columns.len()
            implies #[trigger] q.scenes[si].cuts[ci].columns[k].id < n by {
        assert(scene_shape_eq(p.scenes[si], q.scenes[si]));
        assert(cut_shape_eq(p.scenes[si].cuts[ci], q.scenes[si].cuts[ci]));
        assert(p.scenes[si].cuts[ci].columns[k].id == q.scenes[si].cuts[ci].columns[k].id);
    }
}

/// Once a batch is refused, the rest of the list changes nothing.
pub proof fn lemma_batch_stops(p: ProjectView, cmds: Seq<CommandView>, i: int)
    requires
        0 <= i < cmds.len(),
        batch_spec(p, cmds.take(i + 1)) is Err,
    ensures
        batch_spec(p, cmds) == batch_spec(p, cmds.take(i + 1)),
    decreases cmds.len() - i,
{
    if i + 1 < cmds.len() {
        assert(cmds.take(i + 2).drop_last() =~= cmds.take(i + 1));
        lemma_batch_stops(p, cmds, i + 1);
    } else {
        assert(cmds.take(i + 1) =~= cmds);
    }
}

/// Apply the commands in order, collecting the undo list (each inverse
/// prepended) and the invalidated nodes; on a refusal, report where.
#[verifier::rlimit(80)]
fn run_batch(project: &mut Project, commands: &Vec<Command>) -> (r: Result<(Vec<Command>, Vec<NodeId>), (usize, EngineError, Vec<Command>)>)
    requires
        old(project).wf(),
        commands_wf(commands@),
    ensures
        final(project).wf(),
        same_shape(old(project).view(), final(project).view()),
        match batch_spec(old(project).view(), commands_view(commands@)) {
            Ok((p, inv, d)) => r matches Ok((iv, dv)) && final(project).view() == p && commands_view(iv@) == inv
                && dv@.to_set() == d && commands_wf(iv@),
            Err(f) => r matches Err((i, e, iv)) && i == f.index && e == f.error && final(project).view() == f.state
                && commands_view(iv@) == f.undo && commands_wf(iv@),
        },
        // What applied can be taken back: its undo list replays to the start.
        match r {
            Ok((iv, dv)) => replay_spec(final(project).view(), commands_view(iv@)).0 == old(project).view()
                && replay_spec(final(project).view(), commands_view(iv@)).1 is None
                && keeps_cache(old(project).view(), final(project).view(), dv@.to_set()),
            Err((i, e, iv)) => replay_spec(final(project).view(), commands_view(iv@)).0 == old(project).view()
                && replay_spec(final(project).view(), commands_view(iv@)).1 is None,
        },
{
    let ghost p0 = project.view();
    let ghost cv = commands_view(commands@);
    let mut inverses: Vec<Command> = Vec::new();
    let mut invalidate: Vec<NodeId> = Vec::new();
    let mut i: usize = 0;
    proof {
        assert(cv.take(0) =~= Seq::<CommandView>::empty());
        assert(commands_view(inverses@) =~= Seq::<CommandView>::empty());
        assert(invalidate@.to_set() =~= Set::<NodeId>::empty());
        crate::step::lemma_same_shape_refl(p0);
        lemma_keeps_cache_start(p0);
    }
    while i < commands.len()
        invariant
            cv == commands_view(commands@),
            p0 == old(project).view(),
            commands_wf(commands@),
            i <= commands@.len(),
            project.wf(),
            same_shape(p0, project.view()),
            batch_spec(p0, cv.take(i as int)) == Ok::<(ProjectView, Seq<CommandView>, Set<NodeId>), BatchFailure>(
                (project.view(), commands_view(inverses@), invalidate@.to_set()),
            ),
            commands_wf(inverses@),
            replay_spec(project.view(), commands_view(inverses@)).0 == p0,
            replay_spec(project.view(), commands_view(inverses@)).1 is None,
            keeps_cache(p0, project.view(), invalidate@.to_set()),
        decreases commands@.len() - i,
    {
        proof {
            assert(cv.take(i as int + 1).drop_last() =~= cv.take(i as int));
            assert(cv.take(i as int + 1).last() == cv[i as int]);
            assert(commands@[i as int].wf());
        }
        let cmd = &commands[i];
        let ghost q = project.view();
        proof {
            crate::laws::lemma_project_wf_view(*project);
        }
        match apply_command(project, cmd) {
            Ok(eff) => {
                proof {
                    lemma_project_step_shape(q, cmd.view());
                    lemma_same_shape_trans(p0, q, project.view());
                    crate::laws::lemma_undo_extends(q, cmd.view(), commands_view(inverses@), p0);
                }
                let mut closure = invalidation_closure(project, cmd.cut_ref(), &eff.invalidation_roots);
                let ghost inv_pre = invalidate@;
                let ghost clo = closure@;
                invalidate.append(&mut closure);
                proof {
                    lemma_to_set_concat(inv_pre, clo);
                    crate::laws::lemma_project_wf_view(*project);
                    lemma_keeps_cache_step(p0, q, cmd.view(), inv_pre.to_set());
                }
                let ghost inv_old = inverses@;
                let ghost eff_inv = eff.inverse@;
                let mut new_inv = eff.inverse;
                new_inv.append(&mut inverses);
                inverses = new_inv;
                proof {
                    assert(inverses@ == eff_inv + inv_old);
                    assert(commands_view(inverses@) =~= commands_view(eff_inv) + commands_view(inv_old));
                    assert(replay_spec(project.view(), commands_view(inverses@)).0 == p0);
                    assert forall|k: int| 0 <= k < inverses@.len() implies (#[trigger] inverses@[k]).wf() by {
                        if k < eff_inv.len() {
                            assert(eff_inv[k].wf());
                        } else {
                            assert(inv_old[k - eff_inv.len()].wf());
                        }
                    }
                }
            },
            Err(e) => {
                proof {
                    assert(project.view() == q);
                    lemma_batch_stops(p0, cv, i as int);
                }
                return Err((i, e, inverses));
            },
        }
        i = i + 1;
    }
    proof {
        assert(cv.take(i as int) =~= cv);
    }
    Ok((inverses, invalidate))
}

/// Apply the commands in order, skipping any that are refused.
fn roll_back(project: &mut Project, commands: &Vec<Command>)
    requires
        old(project).wf(),
        commands_wf(commands@),
    ensures
        final(project).wf(),
        same_shape(old(project).view(), final(project).view()),
        final(project).view() == rollback_spec(old(project).view(), commands_view(commands@)),
{
    let ghost p0 = project.view();
    let ghost cv = commands_view(commands@);
    let mut k: usize = 0;
    proof {
        assert(cv.take(0) =~= Seq::<CommandView>::empty());
        crate::step::lemma_same_shape_refl(p0);
    }
    while k < commands.len()
        invariant
            cv == commands_view(commands@),
            commands_wf(commands@),
            k <= commands@.len(),
            project.wf(),
            same_shape(p0, project.view()),
            project.view() == rollback_spec(p0, cv.take(k as int)),
        decreases commands@.len() - k,
    {
        proof {
            assert(cv.take(k as int + 1).drop_last() =~= cv.take(k as int));
            assert(cv.take(k as int + 1).last() == cv[k as int]);
            assert(commands@[k as int].wf());
        }
        let ghost q = project.view();
        let res = apply_command(project, &commands[k]);
        proof {
            if res is Ok {
                lemma_project_step_shape(q, cv[k as int]);
                lemma_same_shape_trans(p0, q, project.view());
            }
        }
        k = k + 1;
    }
    proof {
        assert(cv.take(k as int) =~= cv);
    }
}

/// Apply the commands in order, stopping at the first refusal; returns the
/// invalidated nodes when all applied.
#[verifier::rlimit(40)]
fn replay_commands(project: &mut Project, commands: &Vec<Command>) -> (r: Result<Vec<NodeId>, EngineError>)
    requires
        old(project).wf(),
        commands_wf(commands@),
    ensures
        final(project).wf(),
        same_shape(old(project).view(), final(project).view()),
        final(project).view() == replay_spec(old(project).view(), commands_view(commands@)).0,
        match replay_spec(old(project).view(), commands_view(commands@)).1 {
            None => r matches Ok(dv) && dv@.to_set() == replay_spec(old(project).view(), commands_view(commands@)).2,
            Some(err) => r == Err::<Vec<NodeId>, EngineError>(err),
        },
        r matches Ok(dv) ==> keeps_cache(old(project).view(), final(project).view(), dv@.to_set()),
{
    let ghost p0 = project.view();
    let ghost cv = commands_view(commands@);
    let mut invalidate: Vec<NodeId> = Vec::new();
    let mut i: usize = 0;
    proof {
        assert(cv.take(0) =~= Seq::<CommandView>::empty());
        assert(invalidate@.to_set() =~= Set::<NodeId>::empty());
        crate::step::lemma_same_shape_refl(p0);
        lemma_keeps_cache_start(p0);
    }
    while i < commands.len()
        invariant
            cv == commands_view(commands@),
            p0 == old(project).view(),
            commands_wf(commands@),
            i <= commands@.len(),
            project.wf(),
            same_shape(p0, project.view()),
            replay_spec(p0, cv.take(i as int)) == (project.view(), None::<EngineError>, invalidate@.to_set()),
            keeps_cache(p0, project.view(), invalidate@.to_set()),
        decreases commands@.len() - i,
    {
        proof {
            assert(cv.take(i as int + 1).drop_last() =~= cv.take(i as int));
            assert(cv.take(i as int + 1).last() == cv[i as int]);
            assert(commands@[i as int].wf());
        }
        let cmd = &commands[i];
        let ghost q = project.view();
        proof {
            crate::laws::lemma_project_wf_view(*project);
        }
        match apply_command(project, cmd) {
            Ok(eff) => {
                proof {
                    lemma_project_step_shape(q, cmd.view());
                    lemma_same_shape_trans(p0, q, project.view());
                }
                let mut closure = invalidation_closure(project, cmd.cut_ref(), &eff.invalidation_roots);
                let ghost inv_pre = invalidate@;
                let ghost clo = closure@;
                invalidate.append(&mut closure);
                proof {
                    lemma_to_set_concat(inv_pre, clo);
                    crate::laws::lemma_project_wf_view(*project);
                    lemma_keeps_cache_step(p0, q, cmd.view(), inv_pre.to_set());
                }
            },
            Err(e) => {
                proof {
                    assert(project.view() == q);
                    lemma_replay_stops(p0, cv, i as int);
                }
                return Err(e);
            },
        }
        i = i + 1;
    }
    proof {
        assert(cv.take(i as int) =~= cv);
    }
    Ok(invalidate)
}

/// Once replay is refused, the rest of the list changes nothing.
pub proof fn lemma_replay_stops(p: ProjectView, cmds: Seq<CommandView>, i: int)
    requires
        0 <= i < cmds.len(),
        replay_spec(p, cmds.take(i + 1)).1 is Some,
    ensures
        replay_spec(p, cmds) == replay_spec(p, cmds.take(i + 1)),
    decreases cmds.len() - i,
{
    if i + 1 < cmds.len() {
        assert(cmds.take(i + 2).drop_last() =~= cmds.take(i + 1));
        lemma_replay_stops(p, cmds, i + 1);
    } else {
        assert(cmds.take(i + 1) =~= cmds);
    }
}

impl Engine {
    /// Allocate an id for a new drawing to be created via a command.
    pub fn alloc_drawing_id(&mut self) -> (id: DrawingId)
        requires
            old(self).wf(),
            old(self)@.project.next_id < u64::MAX,
        ensures
            final(self).wf(),
            id.0 == old(self)@.project.next_id,
            final(self)@ == (EngineView { project: ProjectView { next_id: (id.0 + 1) as u64, ..old(self)@.project }, ..old(self)@ }),
    {
        DrawingId(self.project.alloc_id())
    }

    pub fn alloc_node_id(&mut self) -> (id: NodeId)
        requires
            old(self).wf(),
            old(self)@.project.next_id < u64::MAX,
        ensures
            final(self).wf(),
            id.0 == old(self)@.project.next_id,
            final(self)@ == (EngineView { project: ProjectView { next_id: (id.0 + 1) as u64, ..old(self)@.project }, ..old(self)@ }),
    {
        NodeId(self.project.alloc_id())
    }

    pub fn alloc_layer_id(&mut self) -> (id: LayerId)
        requires
            old(self).wf(),
            old(self)@.project.next_id < u64::MAX,
        ensures
            final(self).wf(),
            id.0 == old(self)@.project.next_id,
            final(self)@ == (EngineView { project: ProjectView { next_id: (id.0 + 1) as u64, ..old(self)@.project }, ..old(self)@ }),
    {
        LayerId(self.project.alloc_id())
    }

    pub fn alloc_image_id(&mut self) -> (id: ImageId)
        requires
            old(self).wf(),
            old(self)@.project.next_id < u64::MAX,
        ensures
            final(self).wf(),
            id.0 == old(self)@.project.next_id,
            final(self)@ == (EngineView { project: ProjectView { next_id: (id.0 + 1) as u64, ..old(self)@.project }, ..old(self)@ }),
    {
        ImageId(self.project.alloc_id())
    }

    // ---- Editing (undoable) ------------------------------------------------------

    /// Record an applied batch: invalidate what it touched, log it for
    /// mirroring, push it as the newest undo step (dropping the oldest
    /// beyond the limit) and forget the redo steps.
    fn record_step(&mut self, label: String, commands: Vec<Command>, inverses: Vec<Command>, invalidate: &Vec<NodeId>)
        requires
            old(self).wf(),
            commands_wf(commands@),
            commands_wf(inverses@),
        ensures
            final(self).wf(),
            final(self)@ == (EngineView {
                undo: trimmed(
                    old(self)@.undo.push(StepView { label: label@, redo: commands_view(commands@), undo: commands_view(inverses@), author: old(self)@.author }),
                    old(self)@.limit,
                ),
                redo: Seq::empty(),
                log: if old(self)@.mirror_log { old(self)@.log.push(commands_view(commands@)) } else { old(self)@.log },
                cache: retain_spec(old(self)@.cache, invalidate@.to_set()),
                ..old(self)@
            }),
    {
                self.evaluator.invalidate_nodes(invalidate);
                if self.mirror_log {
                    let logged = copy_commands(&commands);
                    let ghost lv = commands_view(logged@);
                    self.applied_log.push(logged);
                    proof {
                        assert(self.applied_log@.map_values(|b: Vec<Command>| commands_view(b@)) =~= old(self).applied_log@.map_values(
                            |b: Vec<Command>| commands_view(b@),
                        ).push(lv));
                        assert forall|i: int| 0 <= i < self.applied_log@.len() implies commands_wf((#[trigger] self.applied_log@[i])@) by {
                            if i < self.applied_log@.len() - 1 {
                                assert(old(self).applied_log@[i] == self.applied_log@[i]);
                            }
                        }
                    }
                }
                let author = copy_opt_text(&self.current_author);
                let step = Applied { label, redo: commands, undo: inverses, author };
                let ghost u0 = self.history.undo_stack@;
                self.history.undo_stack.push_back(step);
                let ghost full = self.history.undo_stack@;
                proof {
                    assert(steps_view(full) =~= steps_view(u0).push(step.view()));
                    assert forall|k: int| 0 <= k < full.len() implies (#[trigger] full[k]).wf() by {
                        if k < u0.len() {
                            assert(u0[k].wf());
                        }
                    }
                }
                self.history.trim();
                self.history.redo_stack.clear();
                proof {
                    assert(steps_view(self.history.redo_stack@) =~= Seq::<StepView>::empty());
                }
    }

    /// Undo what a refused batch had applied, skipping refusals.
    fn roll_back_batch(&mut self, inverses: &Vec<Command>)
        requires
            old(self).wf(),
            commands_wf(inverses@),
        ensures
            final(self).wf(),
            final(self)@ == (EngineView { project: rollback_spec(old(self)@.project, commands_view(inverses@)), ..old(self)@ }),
    {
        let ghost q = self.project.view();
        roll_back(&mut self.project, inverses);
        proof {
            lemma_columns_below_shape(q, self.project.view(), self.project.next_id);
        }
    }

    /// Apply a labeled batch of commands as one undo step. On a refusal
    /// mid-batch, what had applied is rolled back and the refusal is
    /// reported with its index.
    pub fn apply(&mut self, label: String, commands: Vec<Command>) -> (r: Result<(), EngineError>)
        requires
            old(self).wf(),
            commands_wf(commands@),
        ensures
            final(self).wf(),
            match batch_spec(old(self)@.project, commands_view(commands@)) {
                Ok((p, inv, d)) => r is Ok && final(self)@ == (EngineView {
                    project: p,
                    undo: trimmed(
                        old(self)@.undo.push(StepView { label: label@, redo: commands_view(commands@), undo: inv, author: old(self)@.author }),
                        old(self)@.limit,
                    ),
                    redo: Seq::empty(),
                    log: if old(self)@.mirror_log { old(self)@.log.push(commands_view(commands@)) } else { old(self)@.log },
                    cache: retain_spec(old(self)@.cache, d),
                    ..old(self)@
                }),
                Err(f) => r == Err::<(), EngineError>(EngineError::BatchFailed { index: f.index as usize, cause: Box::new(f.error) })
                    && final(self)@ == old(self)@,
            },
            // A refused batch leaves the document untouched.
            r is Err ==> final(self)@ == old(self)@,
            // Downstream-only invalidation: every memoized value the cache
            // keeps is what its node evaluates to in the edited document.
            r is Ok ==> cache_stays_right(old(self)@.project, old(self)@.cache, final(self)@.project, final(self)@.cache),
            // The recorded step's undo list replays to the document before it.
            r is Ok ==> replay_spec(final(self)@.project, final(self)@.undo.last().undo).0 == old(self)@.project
                && replay_spec(final(self)@.project, final(self)@.undo.last().undo).1 is None,
    {
        let ghost p0 = self.project.view();
        let res = run_batch(&mut self.project, &commands);
        proof {
            lemma_columns_below_shape(p0, self.project.view(), self.project.next_id);
        }
        match res {
            Err(failure) => {
                let (i, e, inverses) = failure;
                proof {
                    crate::laws::lemma_rollback_is_replay(self.project.view(), commands_view(inverses@));
                }
                self.roll_back_batch(&inverses);
                Err(EngineError::BatchFailed { index: i, cause: Box::new(e) })
            },
            Ok(done) => {
                let (inverses, invalidate) = done;
                proof {
                    lemma_keeps_cache_use(p0, self.project.view(), invalidate@.to_set(), old(self)@.cache);
                }
                self.record_step(label, commands, inverses, &invalidate);
                Ok(())
            },
        }
    }
}

/// The (drawing, layer) a command paints, when it has one.
pub open spec fn target_of(c: CommandView) -> Option<(DrawingId, LayerId)> {
    match c {
        CommandView::PaintTiles { id, layer, .. } => Some((id, layer)),
        _ => None,
    }
}

/// Every (drawing, layer) the commands paint, in order.
pub open spec fn targets(cmds: Seq<CommandView>) -> Seq<(DrawingId, LayerId)>
    decreases cmds.len(),
{
    if cmds.len() == 0 {
        Seq::empty()
    } else {
        let r = targets(cmds.drop_last());
        match target_of(cmds.last()) {
            Some(t) => r.push(t),
            None => r,
        }
    }
}

/// The newest step by this author.
pub open spec fn last_by(steps: Seq<StepView>, author: Option<Seq<char>>) -> Option<int>
    decreases steps.len(),
{
    if steps.len() == 0 {
        None
    } else if steps.last().author == author {
        Some(steps.len() - 1)
    } else {
        last_by(steps.drop_last(), author)
    }
}

/// Some step after `idx` paints a layer that step `idx` paints.
pub open spec fn blocked(steps: Seq<StepView>, idx: int) -> bool {
    exists|j: int, t: (DrawingId, LayerId)|
        idx < j < steps.len() && #[trigger] targets(steps[j].redo).contains(t) && targets(steps[idx].redo).contains(t)
}

/// Command `a` and command `b` both paint tiles of the same drawing layer.
pub open spec fn paint_same_layer(a: CommandView, b: CommandView) -> bool {
    match (a, b) {
        (CommandView::PaintTiles { id: d1, layer: l1, .. }, CommandView::PaintTiles { id: d2, layer: l2, .. }) =>
            d1 == d2 && l1 == l2,
        _ => false,
    }
}

proof fn lemma_painted_target(cmds: Seq<CommandView>, i: int)
    requires
        0 <= i < cmds.len(),
        cmds[i] is PaintTiles,
    ensures
        targets(cmds).contains((cmds[i]->PaintTiles_id, cmds[i]->PaintTiles_layer)),
    decreases cmds.len(),
{
    let r = targets(cmds.drop_last());
    if i == cmds.len() - 1 {
        assert(targets(cmds)[targets(cmds).len() - 1] == (cmds[i]->PaintTiles_id, cmds[i]->PaintTiles_layer));
    } else {
        lemma_painted_target(cmds.drop_last(), i);
        assert(cmds.drop_last()[i] == cmds[i]);
        let k = choose|k: int| 0 <= k < r.len() && r[k] == (cmds[i]->PaintTiles_id, cmds[i]->PaintTiles_layer);
        assert(targets(cmds)[k] == r[k]);
    }
}

proof fn lemma_target_painted(cmds: Seq<CommandView>, t: (DrawingId, LayerId))
    requires
        targets(cmds).contains(t),
    ensures
        exists|i: int| 0 <= i < cmds.len() && #[trigger] cmds[i] is PaintTiles
            && cmds[i]->PaintTiles_id == t.0 && cmds[i]->PaintTiles_layer == t.1,
    decreases cmds.len(),
{
    let pre = cmds.drop_last();
    let r = targets(pre);
    let k = choose|k: int| 0 <= k < targets(cmds).len() && targets(cmds)[k] == t;
    if k < r.len() && targets(cmds)[k] == r[k] {
        assert(r.contains(t));
        lemma_target_painted(pre, t);
        let i = choose|i: int| 0 <= i < pre.len() && #[trigger] pre[i] is PaintTiles
            && pre[i]->PaintTiles_id == t.0 && pre[i]->PaintTiles_layer == t.1;
        assert(cmds[i] == pre[i]);
    } else {
        let i = cmds.len() - 1;
        assert(cmds[i] == cmds.last());
    }
}

/// Per-artist undo waits for every later painter: when any step applied
/// after step `idx`, however far after it, paints a drawing layer that
/// step `idx` paints, undoing step `idx` is refused.
pub proof fn law_any_later_painter_blocks(steps: Seq<StepView>, idx: int, j: int, a: int, b: int)
    requires
        0 <= idx < j < steps.len(),
        0 <= a < steps[idx].redo.len(),
        0 <= b < steps[j].redo.len(),
        paint_same_layer(steps[idx].redo[a], steps[j].redo[b]),
    ensures
        blocked(steps, idx),
{
    lemma_painted_target(steps[idx].redo, a);
    lemma_painted_target(steps[j].redo, b);
    let t = (steps[j].redo[b]->PaintTiles_id, steps[j].redo[b]->PaintTiles_layer);
    assert(targets(steps[j].redo).contains(t) && targets(steps[idx].redo).contains(t));
}

/// And only a later painter blocks it: when no step after `idx` paints a
/// drawing layer that step `idx` paints, its undo is not refused.
pub proof fn law_only_later_painters_block(steps: Seq<StepView>, idx: int)
    requires
        0 <= idx < steps.len(),
        forall|j: int, a: int, b: int| idx < j < steps.len() && 0 <= a < steps[idx].redo.len()
            && 0 <= b < steps[j].redo.len() ==> !paint_same_layer(#[trigger] steps[idx].redo[a], #[trigger] steps[j].redo[b]),
    ensures
        !blocked(steps, idx),
{
    if blocked(steps, idx) {
        let (j, t) = choose|j: int, t: (DrawingId, LayerId)|
            idx < j < steps.len() && #[trigger] targets(steps[j].redo).contains(t) && targets(steps[idx].redo).contains(t);
        lemma_target_painted(steps[idx].redo, t);
        lemma_target_painted(steps[j].redo, t);
        let a = choose|i: int| 0 <= i < steps[idx].redo.len() && #[trigger] steps[idx].redo[i] is PaintTiles
            && steps[idx].redo[i]->PaintTiles_id == t.0 && steps[idx].redo[i]->PaintTiles_layer == t.1;
        let b = choose|i: int| 0 <= i < steps[j].redo.len() && #[trigger] steps[j].redo[i] is PaintTiles
            && steps[j].redo[i]->PaintTiles_id == t.0 && steps[j].redo[i]->PaintTiles_layer == t.1;
        assert(paint_same_layer(steps[idx].redo[a], steps[j].redo[b]));
    }
}

/// Per-artist undo picks the author's newest step: the one found is the
/// author's and no later step is; nothing is found exactly when the
/// author has no step.
pub proof fn law_last_by_is_the_newest_own_step(steps: Seq<StepView>, author: Option<Seq<char>>)
    ensures
        last_by(steps, author) matches Some(i) ==> 0 <= i < steps.len() && steps[i].author == author
            && forall|k: int| i < k < steps.len() ==> (#[trigger] steps[k]).author != author,
        last_by(steps, author) is None <==> forall|k: int| 0 <= k < steps.len() ==> (#[trigger] steps[k]).author != author,
    decreases steps.len(),
{
    if steps.len() > 0 {
        let pre = steps.drop_last();
        law_last_by_is_the_newest_own_step(pre, author);
        if steps.last().author != author {
            assert forall|k: int| 0 <= k < pre.len() implies pre[k] == steps[k] by {}
            if last_by(pre, author) is None {
                assert forall|k: int| 0 <= k < steps.len() implies (#[trigger] steps[k]).author != author by {
                    if k < pre.len() {
                        assert(pre[k] == steps[k]);
                    }
                }
            } else {
                let i = last_by(pre, author)->Some_0;
                assert(pre[i] == steps[i]);
                assert forall|k: int| i < k < steps.len() implies (#[trigger] steps[k]).author != author by {
                    if k < pre.len() {
                        assert(pre[k] == steps[k]);
                    }
                }
            }
        } else {
            assert(steps[steps.len() - 1].author == author);
        }
    }
}

/// How many of the steps this author made.
pub open spec fn count_by(steps: Seq<StepView>, author: Option<Seq<char>>) -> nat
    decreases steps.len(),
{
    if steps.len() == 0 {
        0
    } else {
        count_by(steps.drop_last(), author) + if steps.last().author == author { 1nat } else { 0nat }
    }
}

/// Does this step belong to `author`?
fn authored_by(a: &Option<String>, author: Option<&str>) -> (r: bool)
    ensures
        r == (opt_text(*a) == opt_str(author)),
{
    match (a, author) {
        (Some(x), Some(y)) => crate::text::text_eq(x.as_str(), y),
        (None, None) => true,
        _ => false,
    }
}

/// The (drawing, layer) pairs a command list paints.
fn targets_exec(cmds: &Vec<Command>) -> (r: Vec<(DrawingId, LayerId)>)
    ensures
        r@ == targets(commands_view(cmds@)),
{
    let ghost cv = commands_view(cmds@);
    let mut r: Vec<(DrawingId, LayerId)> = Vec::new();
    let mut i: usize = 0;
    while i < cmds.len()
        invariant
            cv == commands_view(cmds@),
            i <= cmds@.len(),
            r@ == targets(cv.take(i as int)),
        decreases cmds@.len() - i,
    {
        proof {
            assert(cv.take(i as int + 1).drop_last() =~= cv.take(i as int));
            assert(cv.take(i as int + 1).last() == cv[i as int]);
        }
        match &cmds[i] {
            Command::PaintTiles { id, layer, .. } => {
                r.push((*id, *layer));
            },
            _ => {},
        }
        i = i + 1;
    }
    proof {
        assert(cv.take(i as int) =~= cv);
    }
    r
}

fn contains_target(v: &Vec<(DrawingId, LayerId)>, t: (DrawingId, LayerId)) -> (r: bool)
    ensures
        r == v@.contains(t),
{
    let mut i: usize = 0;
    while i < v.len()
        invariant
            i <= v@.len(),
            forall|j: int| 0 <= j < i ==> v@[j] != t,
        decreases v@.len() - i,
    {
        if v[i].0 == t.0 && v[i].1 == t.1 {
            assert(v@[i as int] == t);
            return true;
        }
        i = i + 1;
    }
    false
}

impl Engine {
    /// Run commands in order, stopping at the first refusal (what applied
    /// before it stays applied); the cache is invalidated only when all
    /// applied.
    fn replay(&mut self, commands: &Vec<Command>) -> (r: Result<(), EngineError>)
        requires
            old(self).wf(),
            commands_wf(commands@),
        ensures
            final(self).wf(),
            final(self)@ == (EngineView {
                project: replay_spec(old(self)@.project, commands_view(commands@)).0,
                cache: if replay_spec(old(self)@.project, commands_view(commands@)).1 is None {
                    retain_spec(old(self)@.cache, replay_spec(old(self)@.project, commands_view(commands@)).2)
                } else {
                    old(self)@.cache
                },
                ..old(self)@
            }),
            match replay_spec(old(self)@.project, commands_view(commands@)).1 {
                None => r is Ok,
                Some(e) => r == Err::<(), EngineError>(e),
            },
            r is Ok ==> cache_stays_right(old(self)@.project, old(self)@.cache, final(self)@.project, final(self)@.cache),
    {
        let ghost p0 = self.project.view();
        let res = replay_commands(&mut self.project, commands);
        proof {
            lemma_columns_below_shape(p0, self.project.view(), self.project.next_id);
        }
        match res {
            Ok(invalidate) => {
                proof {
                    lemma_keeps_cache_use(p0, self.project.view(), invalidate@.to_set(), old(self)@.cache);
                }
                self.evaluator.invalidate_nodes(&invalidate);
                Ok(())
            },
            Err(e) => Err(e),
        }
    }

    /// Undo the newest step. If one of its inverse commands is refused, the
    /// step is dropped and what applied before the refusal stays applied.
    pub fn undo(&mut self) -> (r: Result<(), EngineError>)
        requires
            old(self).wf(),
        ensures
            final(self).wf(),
            r is Ok ==> cache_stays_right(old(self)@.project, old(self)@.cache, final(self)@.project, final(self)@.cache),
            old(self)@.undo.len() == 0 ==> r == Err::<(), EngineError>(EngineError::NothingToUndo) && final(self)@ == old(self)@,
            old(self)@.undo.len() > 0 ==> ({
                let step = old(self)@.undo.last();
                let (q, e, d) = replay_spec(old(self)@.project, step.undo);
                &&& final(self)@ == (EngineView {
                    project: q,
                    undo: old(self)@.undo.drop_last(),
                    redo: if e is None { old(self)@.redo.push(step) } else { old(self)@.redo },
                    cache: if e is None { retain_spec(old(self)@.cache, d) } else { old(self)@.cache },
                    ..old(self)@
                })
                &&& r == (match e {
                    None => Ok::<(), EngineError>(()),
                    Some(err) => Err(err),
                })
            }),
    {
        let ghost u0 = self.history.undo_stack@;
        let step = match self.history.undo_stack.pop_back() {
            Some(s) => s,
            None => { return Err(EngineError::NothingToUndo); },
        };
        proof {
            assert(steps_view(self.history.undo_stack@) =~= steps_view(u0).drop_last());
            assert(u0[u0.len() - 1].wf());
            assert forall|k: int| 0 <= k < self.history.undo_stack@.len() implies (#[trigger] self.history.undo_stack@[k]).wf() by {
                assert(u0[k].wf());
            }
        }
        match self.replay(&step.undo) {
            Ok(()) => {
                let ghost r0 = self.history.redo_stack@;
                self.history.redo_stack.push(step);
                proof {
                    assert(steps_view(self.history.redo_stack@) =~= steps_view(r0).push(step.view()));
                    assert forall|k: int| 0 <= k < self.history.redo_stack@.len() implies (#[trigger] self.history.redo_stack@[k]).wf() by {
                        if k < r0.len() {
                            assert(r0[k].wf());
                        }
                    }
                }
                Ok(())
            },
            Err(e) => Err(e),
        }
    }

    /// Redo the newest undone step. If one of its commands is refused, the
    /// step is dropped and what applied before the refusal stays applied.
    pub fn redo(&mut self) -> (r: Result<(), EngineError>)
        requires
            old(self).wf(),
        ensures
            final(self).wf(),
            r is Ok ==> cache_stays_right(old(self)@.project, old(self)@.cache, final(self)@.project, final(self)@.cache),
            old(self)@.redo.len() == 0 ==> r == Err::<(), EngineError>(EngineError::NothingToRedo) && final(self)@ == old(self)@,
            old(self)@.redo.len() > 0 ==> ({
                let step = old(self)@.redo.last();
                let (q, e, d) = replay_spec(old(self)@.project, step.redo);
                &&& final(self)@ == (EngineView {
                    project: q,
                    undo: if e is None { old(self)@.undo.push(step) } else { old(self)@.undo },
                    redo: old(self)@.redo.drop_last(),
                    cache: if e is None { retain_spec(old(self)@.cache, d) } else { old(self)@.cache },
                    ..old(self)@
                })
                &&& r == (match e {
                    None => Ok::<(), EngineError>(()),
                    Some(err) => Err(err),
                })
            }),
    {
        let ghost r0 = self.history.redo_stack@;
        let step = match self.history.redo_stack.pop() {
            Some(s) => s,
            None => { return Err(EngineError::NothingToRedo); },
        };
        proof {
            assert(steps_view(self.history.redo_stack@) =~= steps_view(r0).drop_last());
            assert(r0[r0.len() - 1].wf());
            assert forall|k: int| 0 <= k < self.history.redo_stack@.len() implies (#[trigger] self.history.redo_stack@[k]).wf() by {
                assert(r0[k].wf());
            }
        }
        match self.replay(&step.redo) {
            Ok(()) => {
                let ghost u0 = self.history.undo_stack@;
                self.history.undo_stack.push_back(step);
                proof {
                    assert(steps_view(self.history.undo_stack@) =~= steps_view(u0).push(step.view()));
                    assert forall|k: int| 0 <= k < self.history.undo_stack@.len() implies (#[trigger] self.history.undo_stack@[k]).wf() by {
                        if k < u0.len() {
                            assert(u0[k].wf());
                        }
                    }
                }
                Ok(())
            },
            Err(e) => Err(e),
        }
    }

    /// Cap the number of undo steps kept (0 = unlimited). Trims at once.
    pub fn set_undo_limit(&mut self, limit: usize)
        requires
            old(self).wf(),
        ensures
            final(self).wf(),
            final(self)@ == (EngineView { undo: trimmed(old(self)@.undo, limit as nat), limit: limit as nat, ..old(self)@ }),
    {
        self.history.limit = limit;
        self.history.trim();
    }

    /// Label the next applied steps with this author (`None` = this
    /// machine's own hand).
    pub fn set_author(&mut self, author: Option<String>)
        requires
            old(self).wf(),
        ensures
            final(self).wf(),
            final(self)@ == (EngineView { author: opt_text(author), ..old(self)@ }),
    {
        self.current_author = author;
    }

    /// The author currently armed.
    pub fn author(&self) -> (a: Option<String>)
        ensures
            opt_text(a) == self@.author,
    {
        copy_opt_text(&self.current_author)
    }

    pub fn can_undo(&self) -> (b: bool)
        ensures
            b == (self@.undo.len() > 0),
    {
        self.history.undo_stack.len() > 0
    }

    pub fn can_redo(&self) -> (b: bool)
        ensures
            b == (self@.redo.len() > 0),
    {
        self.history.redo_stack.len() > 0
    }

    // ---- Evaluation -------------------------------------------------------

    /// Evaluate a cut's output at `frame`; `decimals` gives the printed form
    /// of each Transform number by its bit pattern. Only the cache changes.
    /// While every memoized value is what its node evaluates to in that
    /// cut, the answer is the cut's value, and the cache stays so. An
    /// output value already memoized is a cache hit that computes nothing.
    pub fn eval(&mut self, scene: SceneId, cut: CutId, frame: u32, decimals: &Vec<(u32, String)>) -> (r: Result<
        Value,
        EngineError,
    >)
        requires
            old(self).wf(),
        ensures
            final(self).wf(),
            final(self)@ == (EngineView { cache: final(self)@.cache, stats: final(self)@.stats, ..old(self)@ }),
            grows(old(self)@.cache, old(self)@.stats, final(self)@.cache, final(self)@.stats),
            match locate(old(self)@.project, CutRef { scene, cut }) {
                None => r == Err::<Value, EngineError>(EngineError::UnknownCut(cut)) && final(self)@ == old(self)@,
                Some((si, ci)) => {
                    &&& match old(self)@.project.scenes[si].cuts[ci].graph.output {
                        None => r == Err::<Value, EngineError>(EngineError::NoOutput) && final(self)@ == old(self)@,
                        Some(o) => {
                            &&& cache_holds(old(self)@.cache, o, frame) ==> (r matches Ok(v) && v@ == cached_value(old(self)@.cache, o, frame)
                                && final(self)@.cache == old(self)@.cache
                                && final(self)@.stats.computed == old(self)@.stats.computed
                                && final(self)@.stats.cache_hits == count_up(old(self)@.stats.cache_hits, 1))
                            &&& r is Ok ==> cache_holds(final(self)@.cache, o, frame)
                            &&& r matches Ok(v) ==> cached_value(final(self)@.cache, o, frame) == v@
                        },
                    }
                    &&& cache_agrees(old(self)@.cache, old(self)@.project.scenes[si].cuts[ci], decimals_view(decimals@))
                        ==> {
                        &&& cache_agrees(final(self)@.cache, old(self)@.project.scenes[si].cuts[ci], decimals_view(decimals@))
                        &&& match r {
                            Ok(v) => cut_value(old(self)@.project.scenes[si].cuts[ci], decimals_view(decimals@), frame)
                                == Ok::<Seq<char>, EngineError>(v@.recipe) && v@ == image_value(v@.recipe),
                            Err(e) => cut_value(old(self)@.project.scenes[si].cuts[ci], decimals_view(decimals@), frame)
                                == Err::<Seq<char>, EngineError>(e),
                        }
                    }
                },
            },
    {
        let (si, ci) = match cut_indices(&self.project, CutRef { scene, cut }) {
            Some(p) => p,
            None => {
                proof {
                    crate::eval::lemma_grows_same(self@.cache, self@.stats, self@.stats);
                }
                return Err(EngineError::UnknownCut(cut));
            },
        };
        proof {
            assert(self.project.scenes@[si as int].wf());
            assert(self.project.scenes@[si as int].cuts@[ci as int].wf());
        }
        self.evaluator.eval(&self.project.scenes[si].cuts[ci], frame, decimals)
    }


    /// Forget all undo/redo history; the document is untouched.
    pub fn clear_history(&mut self)
        requires
            old(self).wf(),
        ensures
            final(self).wf(),
            final(self)@ == (EngineView { undo: Seq::empty(), redo: Seq::empty(), ..old(self)@ }),
    {
        self.history.undo_stack.clear();
        self.history.redo_stack.clear();
        proof {
            assert(steps_view(self.history.undo_stack@) =~= Seq::<StepView>::empty());
            assert(steps_view(self.history.redo_stack@) =~= Seq::<StepView>::empty());
        }
    }

    /// Everything applied since the last drain, oldest first; the log is
    /// emptied.
    pub fn drain_applied(&mut self) -> (r: Vec<Vec<Command>>)
        requires
            old(self).wf(),
        ensures
            final(self).wf(),
            r@.map_values(|b: Vec<Command>| commands_view(b@)) == old(self)@.log,
            forall|i: int| 0 <= i < r@.len() ==> commands_wf((#[trigger] r@[i])@),
            final(self)@ == (EngineView { log: Seq::empty(), ..old(self)@ }),
    {
        let mut out: Vec<Vec<Command>> = Vec::new();
        std::mem::swap(&mut out, &mut self.applied_log);
        proof {
            assert(self.applied_log@.map_values(|b: Vec<Command>| commands_view(b@)) =~= Seq::<Seq<CommandView>>::empty());
        }
        out
    }

    /// Apply a streamed batch to a guest's mirror — no history. Stops at
    /// the first refusal, keeping what applied before it.
    pub fn apply_mirror(&mut self, commands: &Vec<Command>) -> (r: Result<(), EngineError>)
        requires
            old(self).wf(),
            commands_wf(commands@),
        ensures
            final(self).wf(),
            r is Ok ==> cache_stays_right(old(self)@.project, old(self)@.cache, final(self)@.project, final(self)@.cache),
            final(self)@ == (EngineView {
                project: replay_spec(old(self)@.project, commands_view(commands@)).0,
                cache: if replay_spec(old(self)@.project, commands_view(commands@)).1 is None {
                    retain_spec(old(self)@.cache, replay_spec(old(self)@.project, commands_view(commands@)).2)
                } else {
                    old(self)@.cache
                },
                ..old(self)@
            }),
            match replay_spec(old(self)@.project, commands_view(commands@)).1 {
                None => r is Ok,
                Some(e) => r == Err::<(), EngineError>(e),
            },
    {
        self.replay(commands)
    }

    /// How many steps this author can still undo.
    pub fn undo_depth_by(&self, author: Option<&str>) -> (n: usize)
        ensures
            n == count_by(self@.undo, opt_str(author)),
    {
        let ghost sv = steps_view(self.history.undo_stack@);
        let mut n: usize = 0;
        let mut i: usize = 0;
        while i < self.history.undo_stack.len()
            invariant
                sv == steps_view(self.history.undo_stack@),
                i <= sv.len(),
                n == count_by(sv.take(i as int), opt_str(author)),
                n <= i,
            decreases sv.len() - i,
        {
            proof {
                assert(sv.take(i as int + 1).drop_last() =~= sv.take(i as int));
                assert(sv.take(i as int + 1).last() == sv[i as int]);
            }
            if authored_by(&self.history.undo_stack[i].author, author) {
                n = n + 1;
            }
            i = i + 1;
        }
        proof {
            assert(sv.take(i as int) =~= sv);
        }
        n
    }
}

/// `last_by` finds the newest step by the author.
pub proof fn lemma_last_by(steps: Seq<StepView>, author: Option<Seq<char>>)
    ensures
        last_by(steps, author) matches Some(k) ==> 0 <= k < steps.len() && steps[k].author == author
            && forall|j: int| k < j < steps.len() ==> #[trigger] steps[j].author != author,
        last_by(steps, author) is None ==> forall|j: int| 0 <= j < steps.len() ==> #[trigger] steps[j].author != author,
    decreases steps.len(),
{
    if steps.len() > 0 {
        lemma_last_by(steps.drop_last(), author);
        if steps.last().author != author {
            assert forall|j: int| 0 <= j < steps.len() - 1 implies #[trigger] steps[j].author == steps.drop_last()[j].author by {}
        }
    }
}

/// The newest step in `steps` by `author`, scanning from the end.
fn find_last_by(steps: &Vec<Applied>, author: Option<&str>) -> (r: Option<usize>)
    ensures
        match r {
            Some(k) => k < steps@.len() && last_by(steps_view(steps@), opt_str(author)) == Some(k as int),
            None => last_by(steps_view(steps@), opt_str(author)) is None,
        },
{
    let ghost sv = steps_view(steps@);
    proof {
        lemma_last_by(sv, opt_str(author));
    }
    let mut i: usize = steps.len();
    while i > 0
        invariant
            sv == steps_view(steps@),
            i <= sv.len(),
            forall|j: int| i <= j < sv.len() ==> #[trigger] sv[j].author != opt_str(author),
        decreases i,
    {
        i = i - 1;
        if authored_by(&steps[i].author, author) {
            proof {
                lemma_last_by(sv, opt_str(author));
                assert(sv[i as int].author == opt_str(author));
                let k = last_by(sv, opt_str(author))->Some_0;
                if k > i {
                    assert(sv[k].author != opt_str(author));
                }
                if k < i {
                    assert(sv[i as int].author != opt_str(author));
                }
            }
            return Some(i);
        }
    }
    proof {
        lemma_last_by(sv, opt_str(author));
        if last_by(sv, opt_str(author)) is Some {
            let k = last_by(sv, opt_str(author))->Some_0;
            assert(sv[k].author != opt_str(author));
        }
    }
    None
}

/// Like `find_last_by`, over the undo stack.
fn find_last_by_deque(steps: &VecDeque<Applied>, author: Option<&str>) -> (r: Option<usize>)
    ensures
        match r {
            Some(k) => k < steps@.len() && last_by(steps_view(steps@), opt_str(author)) == Some(k as int),
            None => last_by(steps_view(steps@), opt_str(author)) is None,
        },
{
    let ghost sv = steps_view(steps@);
    proof {
        lemma_last_by(sv, opt_str(author));
    }
    let mut i: usize = steps.len();
    while i > 0
        invariant
            sv == steps_view(steps@),
            i <= sv.len(),
            forall|j: int| i <= j < sv.len() ==> #[trigger] sv[j].author != opt_str(author),
        decreases i,
    {
        i = i - 1;
        if authored_by(&steps[i].author, author) {
            proof {
                lemma_last_by(sv, opt_str(author));
                assert(sv[i as int].author == opt_str(author));
                let k = last_by(sv, opt_str(author))->Some_0;
                if k > i {
                    assert(sv[k].author != opt_str(author));
                }
                if k < i {
                    assert(sv[i as int].author != opt_str(author));
                }
            }
            return Some(i);
        }
    }
    proof {
        lemma_last_by(sv, opt_str(author));
        if last_by(sv, opt_str(author)) is Some {
            let k = last_by(sv, opt_str(author))->Some_0;
            assert(sv[k].author != opt_str(author));
        }
    }
    None
}

/// Does any step after `idx` paint a layer that step `idx` paints?
fn later_touches(steps: &VecDeque<Applied>, idx: usize) -> (r: bool)
    requires
        idx < steps@.len(),
    ensures
        r == blocked(steps_view(steps@), idx as int),
{
    let ghost sv = steps_view(steps@);
    let n = steps.len();
    let mine = targets_exec(&steps[idx].redo);
    let mut j: usize = idx + 1;
    while j < steps.len()
        invariant
            sv == steps_view(steps@),
            idx < j <= sv.len(),
            mine@ == targets(sv[idx as int].redo),
            forall|jj: int, t: (DrawingId, LayerId)| idx < jj < j && #[trigger] targets(sv[jj].redo).contains(t) ==> !mine@.contains(t),
        decreases sv.len() - j,
    {
        let later = targets_exec(&steps[j].redo);
        let mut k: usize = 0;
        while k < later.len()
            invariant
                sv == steps_view(steps@),
                idx < j < sv.len(),
                mine@ == targets(sv[idx as int].redo),
                later@ == targets(sv[j as int].redo),
                k <= later@.len(),
                forall|m: int| 0 <= m < k ==> !mine@.contains(#[trigger] later@[m]),
            decreases later@.len() - k,
        {
            if contains_target(&mine, later[k]) {
                proof {
                    assert(later@.contains(later@[k as int]));
                    assert(targets(sv[j as int].redo).contains(later@[k as int]));
                }
                return true;
            }
            k = k + 1;
        }
        proof {
            assert forall|t: (DrawingId, LayerId)| #[trigger] targets(sv[j as int].redo).contains(t) implies !mine@.contains(t) by {
                let m = choose|m: int| 0 <= m < later@.len() && later@[m] == t;
                assert(!mine@.contains(later@[m]));
            }
        }
        j = j + 1;
    }
    proof {
        if blocked(sv, idx as int) {
            let (jj, t) = choose|jj: int, t: (DrawingId, LayerId)|
                idx < jj < sv.len() && #[trigger] targets(sv[jj].redo).contains(t) && targets(sv[idx as int].redo).contains(t);
            assert(!mine@.contains(t));
        }
    }
    false
}

impl Engine {
    /// Undo the newest step authored by `author`, but only while nothing
    /// applied after it paints the same drawing layer. Returns the step's
    /// label. If one of its inverse commands is refused, the step is
    /// dropped and what applied before the refusal stays applied.
    #[verifier::rlimit(50)]
    pub fn undo_last_by(&mut self, author: Option<&str>) -> (r: Result<String, EngineError>)
        requires
            old(self).wf(),
        ensures
            final(self).wf(),
            r is Ok ==> cache_stays_right(old(self)@.project, old(self)@.cache, final(self)@.project, final(self)@.cache),
            match last_by(old(self)@.undo, opt_str(author)) {
                None => r == Err::<String, EngineError>(EngineError::NothingToUndo) && final(self)@ == old(self)@,
                Some(idx) => if blocked(old(self)@.undo, idx) {
                    r == Err::<String, EngineError>(EngineError::InvalidCommand(CommandFault::LaterEditTouchesLayer))
                        && final(self)@ == old(self)@
                } else {
                    let step = old(self)@.undo[idx];
                    let (q, e, d) = replay_spec(old(self)@.project, step.undo);
                    &&& final(self)@ == (EngineView {
                        project: q,
                        undo: old(self)@.undo.remove(idx),
                        redo: if e is None { old(self)@.redo.push(step) } else { old(self)@.redo },
                        cache: if e is None { retain_spec(old(self)@.cache, d) } else { old(self)@.cache },
                        ..old(self)@
                    })
                    &&& match e {
                        None => r matches Ok(l) && l@ == step.label,
                        Some(err) => r == Err::<String, EngineError>(err),
                    }
                },
            },
    {
        let idx = match find_last_by_deque(&self.history.undo_stack, author) {
            Some(i) => i,
            None => { return Err(EngineError::NothingToUndo); },
        };
        if later_touches(&self.history.undo_stack, idx) {
            return Err(EngineError::InvalidCommand(CommandFault::LaterEditTouchesLayer));
        }
        let ghost u0 = self.history.undo_stack@;
        let step = match self.history.undo_stack.remove(idx) {
            Some(s) => s,
            None => { return Err(EngineError::NothingToUndo); },
        };
        proof {
            assert(steps_view(self.history.undo_stack@) =~= steps_view(u0).remove(idx as int));
            assert(u0[idx as int].wf());
            assert forall|k: int| 0 <= k < self.history.undo_stack@.len() implies (#[trigger] self.history.undo_stack@[k]).wf() by {
                if k < idx {
                    assert(u0[k].wf());
                } else {
                    assert(u0[k + 1].wf());
                }
            }
        }
        match self.replay(&step.undo) {
            Ok(()) => {
                let label = step.label.clone();
                let ghost r0 = self.history.redo_stack@;
                self.history.redo_stack.push(step);
                proof {
                    assert(steps_view(self.history.redo_stack@) =~= steps_view(r0).push(step.view()));
                    assert forall|k: int| 0 <= k < self.history.redo_stack@.len() implies (#[trigger] self.history.redo_stack@[k]).wf() by {
                        if k < r0.len() {
                            assert(r0[k].wf());
                        }
                    }
                }
                Ok(label)
            },
            Err(e) => Err(e),
        }
    }

    /// Redo the newest undone step authored by `author`; returns its label.
    /// If one of its commands is refused, the step is dropped and what
    /// applied before the refusal stays applied.
    #[verifier::rlimit(50)]
    pub fn redo_last_by(&mut self, author: Option<&str>) -> (r: Result<String, EngineError>)
        requires
            old(self).wf(),
        ensures
            final(self).wf(),
            r is Ok ==> cache_stays_right(old(self)@.project, old(self)@.cache, final(self)@.project, final(self)@.cache),
            match last_by(old(self)@.redo, opt_str(author)) {
                None => r == Err::<String, EngineError>(EngineError::NothingToRedo) && final(self)@ == old(self)@,
                Some(idx) => {
                    let step = old(self)@.redo[idx];
                    let (q, e, d) = replay_spec(old(self)@.project, step.redo);
                    &&& final(self)@ == (EngineView {
                        project: q,
                        undo: if e is None { old(self)@.undo.push(step) } else { old(self)@.undo },
                        redo: old(self)@.redo.remove(idx),
                        cache: if e is None { retain_spec(old(self)@.cache, d) } else { old(self)@.cache },
                        ..old(self)@
                    })
                    &&& match e {
                        None => r matches Ok(l) && l@ == step.label,
                        Some(err) => r == Err::<String, EngineError>(err),
                    }
                },
            },
    {
        let idx = match find_last_by(&self.history.redo_stack, author) {
            Some(i) => i,
            None => { return Err(EngineError::NothingToRedo); },
        };
        let ghost r0 = self.history.redo_stack@;
        let step = self.history.redo_stack.remove(idx);
        proof {
            assert(steps_view(self.history.redo_stack@) =~= steps_view(r0).remove(idx as int));
            assert(r0[idx as int].wf());
            assert forall|k: int| 0 <= k < self.history.redo_stack@.len() implies (#[trigger] self.history.redo_stack@[k]).wf() by {
                if k < idx {
                    assert(r0[k].wf());
                } else {
                    assert(r0[k + 1].wf());
                }
            }
        }
        match self.replay(&step.redo) {
            Ok(()) => {
                let label = step.label.clone();
                let ghost u0 = self.history.undo_stack@;
                self.history.undo_stack.push_back(step);
                proof {
                    assert(steps_view(self.history.undo_stack@) =~= steps_view(u0).push(step.view()));
                    assert forall|k: int| 0 <= k < self.history.undo_stack@.len() implies (#[trigger] self.history.undo_stack@[k]).wf() by {
                        if k < u0.len() {
                            assert(u0[k].wf());
                        }
                    }
                }
                Ok(label)
            },
            Err(e) => Err(e),
        }
    }
}

} // verus!

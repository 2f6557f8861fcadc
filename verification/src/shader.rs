//! Shaders: their passes, each a set of stages given as source or bytecode.
use vstd::prelude::*;
use crate::gfx::ShaderStageFlagBits;
use crate::text::same_text;

verus! {

/// The source of a shader stage.
pub enum ShaderStageSourceData {
    Bytecode(Vec<u8>),
    Hlsl(String),
}

/// A stage of a shader pass and its source.
pub struct ShaderStage {
    pub stage: ShaderStageFlagBits,
    pub source_data: ShaderStageSourceData,
}

impl ShaderStage {
    /// The stage `stage` with source `source_data`.
    pub fn new(stage: ShaderStageFlagBits, source_data: ShaderStageSourceData) -> (res: Self)
        ensures
            res.stage == stage,
            res.source_data == source_data,
    {
        ShaderStage { stage, source_data }
    }
}

/// A named pass of a shader and its stages.
pub struct ShaderPass {
    pub name: String,
    pub stages: Vec<ShaderStage>,
}

impl ShaderPass {
    /// The pass `name` of `stages`.
    pub fn new(name: String, stages: Vec<ShaderStage>) -> (res: Self)
        ensures
            res.name@ == name@,
            res.stages@ == stages@,
    {
        ShaderPass { name, stages }
    }
}

/// The kind of a shader file.
#[derive(Eq, PartialEq, Debug)]
pub enum ShaderType {
    Zeshader,
    ZeshaderBin,
}

/// A shader: its kind, name and passes.
pub struct Shader {
    pub ty: ShaderType,
    pub name: String,
    pub passes: Vec<ShaderPass>,
}

impl Shader {
    /// The shader `name` of kind `ty` with `passes`.
    pub fn new(ty: ShaderType, name: String, passes: Vec<ShaderPass>) -> (res: Self)
        ensures
            res.ty == ty,
            res.name@ == name@,
            res.passes@ == passes@,
    {
        Shader { ty, name, passes }
    }

    /// The index of the first pass named `name`.
    pub fn pass_index(&self, name: &str) -> (res: Option<usize>)
        ensures
            match res {
                Some(idx) => idx < self.passes@.len() && self.passes@[idx as int].name@ == name@
                    && forall|j: int| 0 <= j < idx ==> #[trigger] self.passes@[j].name@ != name@,
                None => forall|j: int| 0 <= j < self.passes@.len() ==> #[trigger] self.passes@[j].name@ != name@,
            },
    {
        let mut idx: usize = 0;
        while idx < self.passes.len()
            invariant
                idx <= self.passes.len(),
                forall|j: int| 0 <= j < idx ==> #[trigger] self.passes@[j].name@ != name@,
            decreases self.passes.len() - idx,
        {
            if same_text(self.passes[idx].name.as_str(), name) {
                return Some(idx);
            }
            idx = idx + 1;
        }
        None
    }
}


/// What a request for the modules of a shader pass comes to.
#[derive(Copy, Clone, PartialEq, Eq, Structural, Debug)]
pub enum ModulesDecision {
    /// No shader of that name, or no such pass in it.
    Unknown,
    /// The modules are in the cache: hand them out.
    Cached,
    /// The pass is being compiled: hand out the pending compilation.
    Compiling,
    /// Nothing is known of the pass yet: start compiling it.
    StartCompile,
}

/// The decision for a request of the modules of a shader pass: `name_index` is the
/// shader's index, `pass_index` the pass's index in it (if found), `cached` whether the
/// modules are cached and `compiling` whether a compilation is under way.
pub fn decide_modules(name_index: Option<usize>, pass_index: Option<usize>, cached: bool, compiling: bool) -> (res: ModulesDecision)
    ensures
        res == if name_index is None || pass_index is None {
            ModulesDecision::Unknown
        } else if cached {
            ModulesDecision::Cached
        } else if compiling {
            ModulesDecision::Compiling
        } else {
            ModulesDecision::StartCompile
        },
{
    if name_index.is_none() || pass_index.is_none() {
        ModulesDecision::Unknown
    } else if cached {
        ModulesDecision::Cached
    } else if compiling {
        ModulesDecision::Compiling
    } else {
        ModulesDecision::StartCompile
    }
}

impl Shader {
    /// The pass that a request names: `pass`, or the pass named `""` when none is named.
    pub fn requested_pass_index(&self, pass: Option<&str>) -> (res: Option<usize>)
        ensures
            res == spec_pass_index(self.passes@, match pass { Some(p) => p@, None => Seq::<char>::empty() }),
    {
        let name: &str = match pass {
            Some(p) => p,
            None => "",
        };
        proof {
            reveal_strlit("");
            assert(name@ =~= match pass { Some(p) => p@, None => Seq::<char>::empty() });
        }
        let res = self.pass_index(name);
        proof {
            lemma_spec_pass_index(self.passes@, name@, res);
        }
        res
    }
}

/// The index of the first pass of `passes` named `name`.
pub open spec fn spec_pass_index(passes: Seq<ShaderPass>, name: Seq<char>) -> Option<usize> {
    if exists|i: int| 0 <= i < passes.len() && passes[i].name@ == name {
        Some((choose|i: int| 0 <= i < passes.len() && passes[i].name@ == name
            && forall|j: int| 0 <= j < i ==> #[trigger] passes[j].name@ != name) as usize)
    } else {
        None
    }
}

/// What `pass_index` tells is `spec_pass_index`.
proof fn lemma_spec_pass_index(passes: Seq<ShaderPass>, name: Seq<char>, res: Option<usize>)
    requires
        match res {
            Some(idx) => idx < passes.len() && passes[idx as int].name@ == name
                && forall|j: int| 0 <= j < idx ==> #[trigger] passes[j].name@ != name,
            None => forall|j: int| 0 <= j < passes.len() ==> #[trigger] passes[j].name@ != name,
        },
    ensures
        res == spec_pass_index(passes, name),
{
    if let Some(idx) = res {
        assert(passes[idx as int].name@ == name);
        let c = choose|i: int| 0 <= i < passes.len() && passes[i].name@ == name
            && forall|j: int| 0 <= j < i ==> #[trigger] passes[j].name@ != name;
        if c < idx {
            assert(passes[c].name@ != name);
        } else if c > idx {
            assert(passes[idx as int].name@ != name);
        }
    }
}

/// How far the compilation of a shader pass's stages went: each stage is compiled by a
/// job of its own, which records here whether it produced bytecode.
pub struct CompilationProgress {
    stage_count: usize,
    processed_stages: usize,
    compiled_stages: usize,
}

impl CompilationProgress {
    pub closed spec fn spec_stage_count(&self) -> nat {
        self.stage_count as nat
    }

    /// The stages whose job finished, with or without bytecode.
    pub closed spec fn spec_processed(&self) -> nat {
        self.processed_stages as nat
    }

    /// The stages that produced bytecode.
    pub closed spec fn spec_compiled(&self) -> nat {
        self.compiled_stages as nat
    }

    pub closed spec fn wf(&self) -> bool {
        self.compiled_stages <= self.processed_stages <= self.stage_count
    }

    /// A compilation of `stage_count` stages, none finished.
    pub fn new(stage_count: usize) -> (res: Self)
        ensures
            res.wf(),
            res.spec_stage_count() == stage_count,
            res.spec_processed() == 0,
            res.spec_compiled() == 0,
    {
        CompilationProgress { stage_count, processed_stages: 0, compiled_stages: 0 }
    }

    /// Records that the job of one more stage finished, producing bytecode when
    /// `succeeded`; whether every stage's job has now finished, when the permutation's
    /// callback runs.
    pub fn record_stage(&mut self, succeeded: bool) -> (done: bool)
        requires
            old(self).wf(),
            old(self).spec_processed() < old(self).spec_stage_count(),
        ensures
            final(self).wf(),
            final(self).spec_stage_count() == old(self).spec_stage_count(),
            final(self).spec_processed() == old(self).spec_processed() + 1,
            final(self).spec_compiled() == old(self).spec_compiled() + if succeeded { 1nat } else { 0nat },
            done == (final(self).spec_processed() == final(self).spec_stage_count()),
    {
        self.processed_stages = self.processed_stages + 1;
        if succeeded {
            self.compiled_stages = self.compiled_stages + 1;
        }
        self.processed_stages == self.stage_count
    }

    /// Whether every stage produced bytecode, so that the modules can be made: the
    /// callback's test once the compilation is done.
    pub fn modules_ready(&self) -> (res: bool)
        requires
            self.wf(),
        ensures
            res == (self.spec_compiled() == self.spec_stage_count()),
    {
        self.compiled_stages == self.stage_count
    }
}

/// The number of successes among `results`.
pub open spec fn successes(results: Seq<bool>) -> nat
    decreases results.len(),
{
    if results.len() == 0 {
        0
    } else {
        successes(results.drop_last()) + if results.last() { 1nat } else { 0nat }
    }
}

/// Every stage's result is a success exactly when the successes are as many as the
/// results: so a compilation whose stages all recorded (`record_stage` counts the
/// successes) has its modules ready exactly when every stage succeeded.
pub proof fn lemma_compilation_completes(results: Seq<bool>)
    ensures
        successes(results) <= results.len(),
        successes(results) == results.len() <==> forall|k: int| 0 <= k < results.len() ==> #[trigger] results[k],
    decreases results.len(),
{
    if results.len() > 0 {
        lemma_compilation_completes(results.drop_last());
        if successes(results) == results.len() {
            assert forall|k: int| 0 <= k < results.len() implies #[trigger] results[k] by {
                if k < results.len() - 1 {
                    assert(results.drop_last()[k] == results[k]);
                }
            }
        }
        if forall|k: int| 0 <= k < results.len() ==> #[trigger] results[k] {
            assert forall|k: int| 0 <= k < results.drop_last().len() implies #[trigger] results.drop_last()[k] by {
                assert(results[k]);
            }
            assert(results[results.len() - 1]);
        }
    }
}

/// Whether every stage of `pass` is given as HLSL source, as a compilation asks (it
/// stops on any other stage).
pub fn stages_are_hlsl(pass: &ShaderPass) -> (res: bool)
    ensures
        res == forall|k: int| 0 <= k < pass.stages@.len() ==> #[trigger] pass.stages@[k].source_data is Hlsl,
{
    let mut k: usize = 0;
    while k < pass.stages.len()
        invariant
            k <= pass.stages@.len(),
            forall|j: int| 0 <= j < k ==> #[trigger] pass.stages@[j].source_data is Hlsl,
        decreases pass.stages@.len() - k,
    {
        match &pass.stages[k].source_data {
            ShaderStageSourceData::Hlsl(_) => {},
            ShaderStageSourceData::Bytecode(_) => {
                return false;
            },
        }
        k = k + 1;
    }
    true
}

} // verus!

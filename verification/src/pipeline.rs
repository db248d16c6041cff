//! Chains of stages: the text that one model writes is what the next reads.

use vstd::prelude::*;

verus! {

/// What a stage hands on.
#[derive(Debug, Clone)]
pub enum StageIO {
    Text(String),
    Tokens(Vec<usize>),
    /// JSON or YAML.
    Structured(String),
}

#[derive(Debug, Clone)]
pub struct Stage {
    pub name: String,
    pub model_name: String,
    pub system_prompt: String,
    /// A single, as a bit pattern.
    pub temperature: u32,
    pub max_tokens: usize,
}

/// A stage as the contracts see it.
#[verifier::ext_equal]
pub struct StageView {
    pub name: Seq<char>,
    pub model_name: Seq<char>,
    pub system_prompt: Seq<char>,
    pub temperature: u32,
    pub max_tokens: usize,
}

impl View for Stage {
    type V = StageView;

    open spec fn view(&self) -> StageView {
        StageView {
            name: self.name@,
            model_name: self.model_name@,
            system_prompt: self.system_prompt@,
            temperature: self.temperature,
            max_tokens: self.max_tokens,
        }
    }
}

/// What running a stage gave.
#[derive(Debug, Clone)]
pub struct StageOutput {
    pub text: String,
    pub tokens: usize,
    pub elapsed_ns: u64,
}

#[derive(Debug, Clone)]
pub struct StageResult {
    pub stage_name: String,
    pub output: StageIO,
    pub tokens_generated: usize,
    pub elapsed_ns: u64,
}

/// Why a request has no results.
#[derive(Debug)]
pub enum PipelineError<E> {
    /// The registry has no model of this name.
    ModelNotFound(String),
    /// A stage failed.
    Stage(E),
}

/// What is kept of a stage's output.
pub open spec fn kept(stage: Stage, out: StageOutput) -> StageResult {
    StageResult {
        stage_name: stage.name,
        output: StageIO::Text(out.text),
        tokens_generated: out.tokens,
        elapsed_ns: out.elapsed_ns,
    }
}

pub struct PipelineConfig {
    pub stages: Vec<Stage>,
}

/// The bit pattern of 0.1.
pub const TENTH: u32 = 0x3dcc_cccd;

/// The bit pattern of 0.2.
pub const TWO_TENTHS: u32 = 0x3e4c_cccd;

/// The bit pattern of 0.3.
pub const THREE_TENTHS: u32 = 0x3e99_999a;

/// The bit pattern of 0.4.
pub const FOUR_TENTHS: u32 = 0x3ecc_cccd;

/// The stages of the standard chain of seven models.
pub open spec fn standard_stage(i: int) -> StageView {
    if i == 0 {
        StageView {
            name: "intent"@,
            model_name: "qwen-omni-7b"@,
            system_prompt: "You are the human interface. Parse the user request into a structured tool call."@,
            temperature: TENTH,
            max_tokens: 256,
        }
    } else if i == 1 {
        StageView {
            name: "strategy"@,
            model_name: "deepseek-r1-1.5b"@,
            system_prompt: "You are the strategy director. Create a logical execution plan."@,
            temperature: THREE_TENTHS,
            max_tokens: 512,
        }
    } else if i == 2 {
        StageView {
            name: "codegen"@,
            model_name: "glm-flash-3b"@,
            system_prompt: "You are the software engineer. Generate precise scripts."@,
            temperature: TWO_TENTHS,
            max_tokens: 1024,
        }
    } else if i == 3 {
        StageView {
            name: "audit"@,
            model_name: "phi-4-mini-3.8b"@,
            system_prompt: "You are the safety auditor. Check for infinite loops, destructuve commands, and policy violations."@,
            temperature: TENTH,
            max_tokens: 256,
        }
    } else if i == 4 {
        StageView {
            name: "cleanup"@,
            model_name: "smol-vlm"@,
            system_prompt: "Clean terminal logs into structured data."@,
            temperature: TENTH,
            max_tokens: 128,
        }
    } else if i == 5 {
        StageView {
            name: "envelope"@,
            model_name: "llama4-1b"@,
            system_prompt: "Envelope the cleaned data into strict A2A protocol format."@,
            temperature: 0,
            max_tokens: 256,
        }
    } else {
        StageView {
            name: "report"@,
            model_name: "glm-air"@,
            system_prompt: "Write a human-readable technical report from the audit results."@,
            temperature: FOUR_TENTHS,
            max_tokens: 512,
        }
    }
}

fn stage(name: &str, model_name: &str, system_prompt: &str, temperature: u32, max_tokens: usize) -> (s:
    Stage)
    ensures
        s@ == (StageView {
            name: name@,
            model_name: model_name@,
            system_prompt: system_prompt@,
            temperature,
            max_tokens,
        }),
{
    Stage {
        name: name.to_owned(),
        model_name: model_name.to_owned(),
        system_prompt: system_prompt.to_owned(),
        temperature,
        max_tokens,
    }
}

impl PipelineConfig {
    /// The standard chain of seven models.
    pub fn default_7model() -> (c: Self)
        ensures
            c.stages@.len() == 7,
            forall|i: int| 0 <= i < 7 ==> (#[trigger] c.stages@[i])@ == standard_stage(i),
    {
        let mut stages: Vec<Stage> = Vec::new();
        stages.push(
            stage(
                "intent",
                "qwen-omni-7b",
                "You are the human interface. Parse the user request into a structured tool call.",
                TENTH,
                256,
            ),
        );
        stages.push(
            stage(
                "strategy",
                "deepseek-r1-1.5b",
                "You are the strategy director. Create a logical execution plan.",
                THREE_TENTHS,
                512,
            ),
        );
        stages.push(
            stage(
                "codegen",
                "glm-flash-3b",
                "You are the software engineer. Generate precise scripts.",
                TWO_TENTHS,
                1024,
            ),
        );
        stages.push(
            stage(
                "audit",
                "phi-4-mini-3.8b",
                "You are the safety auditor. Check for infinite loops, destructuve commands, and policy violations.",
                TENTH,
                256,
            ),
        );
        stages.push(
            stage(
                "cleanup",
                "smol-vlm",
                "Clean terminal logs into structured data.",
                TENTH,
                128,
            ),
        );
        stages.push(
            stage(
                "envelope",
                "llama4-1b",
                "Envelope the cleaned data into strict A2A protocol format.",
                0,
                256,
            ),
        );
        stages.push(
            stage(
                "report",
                "glm-air",
                "Write a human-readable technical report from the audit results.",
                FOUR_TENTHS,
                512,
            ),
        );
        PipelineConfig { stages }
    }
}

/// Stage `k` found its model `m` and turned `input` into `out`.
pub open spec fn stage_ran<M, E, G: Fn(&Stage) -> Option<M>, R: Fn(
    &Stage,
    String,
    &M,
) -> Result<StageOutput, E>>(
    find: G,
    run: R,
    stage: Stage,
    input: String,
    m: M,
    out: StageOutput,
) -> bool {
    &&& find.ensures((&stage,), Some(m))
    &&& run.ensures((&stage, input, &m), Ok(out))
}

/// A stage found its model and failed on `input`.
pub open spec fn stage_failed<M, E, G: Fn(&Stage) -> Option<M>, R: Fn(
    &Stage,
    String,
    &M,
) -> Result<StageOutput, E>>(find: G, run: R, stage: Stage, input: String, e: E) -> bool {
    exists|m: M|
        find.ensures((&stage,), Some(m)) && #[trigger] run.ensures((&stage, input, &m), Err(e))
}

/// The first `k` stages ran one after the other: the first on the request, each
/// later one on the text of the one before it.
pub open spec fn chain_ran<M, E, G: Fn(&Stage) -> Option<M>, R: Fn(
    &Stage,
    String,
    &M,
) -> Result<StageOutput, E>>(
    find: G,
    run: R,
    stages: Seq<Stage>,
    request: Seq<char>,
    k: int,
    inputs: Seq<String>,
    models: Seq<M>,
    outs: Seq<StageOutput>,
) -> bool {
    &&& 0 <= k <= stages.len()
    &&& inputs.len() == k + 1
    &&& models.len() == k
    &&& outs.len() == k
    &&& inputs[0]@ == request
    &&& forall|i: int| 0 <= i < k ==> #[trigger] inputs[i + 1] == outs[i].text
    &&& forall|i: int|
        0 <= i < k ==> #[trigger] stage_ran(find, run, stages[i], inputs[i], models[i], outs[i])
}

/// How a whole run went.
pub open spec fn run_outcome<M, E, G: Fn(&Stage) -> Option<M>, R: Fn(
    &Stage,
    String,
    &M,
) -> Result<StageOutput, E>>(
    find: G,
    run: R,
    stages: Seq<Stage>,
    request: Seq<char>,
    inputs: Seq<String>,
    models: Seq<M>,
    outs: Seq<StageOutput>,
    r: Result<Vec<StageResult>, PipelineError<E>>,
) -> bool {
    let k = outs.len() as int;
    &&& chain_ran(find, run, stages, request, k, inputs, models, outs)
    &&& match r {
        Ok(results) => {
            &&& k == stages.len()
            &&& results@ == Seq::new(outs.len(), |i: int| kept(stages[i], outs[i]))
        },
        Err(PipelineError::ModelNotFound(name)) => {
            &&& k < stages.len()
            &&& find.ensures((&stages[k],), None)
            &&& name@ == stages[k].model_name@
        },
        Err(PipelineError::Stage(e)) => {
            &&& k < stages.len()
            &&& stage_failed(find, run, stages[k], inputs[k], e)
        },
    }
}

pub struct PipelineExecutor {
    pub config: PipelineConfig,
}

impl PipelineExecutor {
    pub fn new(config: PipelineConfig) -> (p: Self)
        ensures
            p.config == config,
    {
        PipelineExecutor { config }
    }

    /// Runs a request through all stages.  The first stage without a model, or
    /// that fails, ends the run.
    pub fn execute<M, E, G: Fn(&Stage) -> Option<M>, R: Fn(&Stage, String, &M) -> Result<
        StageOutput,
        E,
    >>(&self, user_input: &str, model_getter: G, run_stage_fn: R) -> (r: Result<
        Vec<StageResult>,
        PipelineError<E>,
    >)
        requires
            forall|s: &Stage| #[trigger] model_getter.requires((s,)),
            forall|s: &Stage, t: String, m: &M| #[trigger] run_stage_fn.requires((s, t, m)),
        ensures
            exists|inputs: Seq<String>, models: Seq<M>, outs: Seq<StageOutput>| #[trigger]
                run_outcome(
                    model_getter,
                    run_stage_fn,
                    self.config.stages@,
                    user_input@,
                    inputs,
                    models,
                    outs,
                    r,
                ),
    {
        let mut results: Vec<StageResult> = Vec::new();
        let mut current: String = user_input.to_owned();
        let ghost mut inputs: Seq<String> = seq![current];
        let ghost mut models: Seq<M> = Seq::empty();
        let ghost mut outs: Seq<StageOutput> = Seq::empty();
        let mut i: usize = 0;
        while i < self.config.stages.len()
            invariant
                i <= self.config.stages@.len(),
                forall|s: &Stage| #[trigger] model_getter.requires((s,)),
                forall|s: &Stage, t: String, m: &M| #[trigger] run_stage_fn.requires((s, t, m)),
                chain_ran(
                    model_getter,
                    run_stage_fn,
                    self.config.stages@,
                    user_input@,
                    i as int,
                    inputs,
                    models,
                    outs,
                ),
                current == inputs[i as int],
                results@ == Seq::new(outs.len(), |j: int| kept(self.config.stages@[j], outs[j])),
            decreases self.config.stages@.len() - i,
        {
            let stage = &self.config.stages[i];
            let model = match model_getter(stage) {
                Some(m) => m,
                None => {
                    let r: Result<Vec<StageResult>, PipelineError<E>> = Err(
                        PipelineError::ModelNotFound(stage.model_name.clone()),
                    );
                    assert(run_outcome(
                        model_getter,
                        run_stage_fn,
                        self.config.stages@,
                        user_input@,
                        inputs,
                        models,
                        outs,
                        r,
                    ));
                    return r;
                },
            };
            match run_stage_fn(stage, current, &model) {
                Ok(out) => {
                    let ghost before_in = inputs;
                    let ghost before_outs = outs;
                    proof {
                        inputs = inputs.push(out.text);
                        models = models.push(model);
                        outs = outs.push(out);
                    }
                    results.push(
                        StageResult {
                            stage_name: stage.name.clone(),
                            output: StageIO::Text(out.text.clone()),
                            tokens_generated: out.tokens,
                            elapsed_ns: out.elapsed_ns,
                        },
                    );
                    assert(results@ =~= Seq::new(
                        outs.len(),
                        |j: int| kept(self.config.stages@[j], outs[j]),
                    ));
                    proof {
                        assert forall|j: int| 0 <= j < i + 1 implies #[trigger] inputs[j + 1]
                            == outs[j].text by {
                            if j < i {
                                assert(inputs[j + 1] == before_in[j + 1]);
                                assert(outs[j] == before_outs[j]);
                            }
                        }
                    }
                    current = out.text;
                    i = i + 1;
                },
                Err(e) => {
                    let ghost k = i as int;
                    let ghost stages = self.config.stages@;
                    assert(model_getter.ensures((&stages[k],), Some(model)));
                    assert(run_stage_fn.ensures((&stages[k], inputs[k], &model), Err(e)));
                    assert(stage_failed(model_getter, run_stage_fn, stages[k], inputs[k], e));
                    let r: Result<Vec<StageResult>, PipelineError<E>> = Err(
                        PipelineError::Stage(e),
                    );
                    assert(run_outcome(
                        model_getter,
                        run_stage_fn,
                        self.config.stages@,
                        user_input@,
                        inputs,
                        models,
                        outs,
                        r,
                    ));
                    return r;
                },
            }
        }
        let r: Result<Vec<StageResult>, PipelineError<E>> = Ok(results);
        assert(run_outcome(
            model_getter,
            run_stage_fn,
            self.config.stages@,
            user_input@,
            inputs,
            models,
            outs,
            r,
        ));
        r
    }
}

/// Where the text of a stage goes next.
#[derive(Debug)]
pub struct Handover {
    pub stage: usize,
    pub request: usize,
    pub input: String,
}

/// The results of requests that pass through the stages at the same time, each
/// stage on its own worker.
pub struct PipelineBoard {
    pub stages: Vec<Stage>,
    pub results: Vec<Option<Vec<StageResult>>>,
}

/// The results of one request, none before its first.
pub open spec fn results_of(r: Option<Vec<StageResult>>) -> Seq<StageResult> {
    match r {
        Some(v) => v@,
        None => Seq::empty(),
    }
}

impl PipelineBoard {
    /// A board for so many requests; none if there is nothing to run.
    pub fn new(config: &PipelineConfig, requests: usize) -> (b: Option<Self>)
        ensures
            b is None <==> requests == 0 || config.stages@.len() == 0,
            b matches Some(board) ==> {
                &&& board.stages@.len() == config.stages@.len()
                &&& forall|i: int|
                    0 <= i < board.stages@.len() ==> (#[trigger] board.stages@[i])@
                        == config.stages@[i]@
                &&& board.results@.len() == requests
                &&& forall|i: int| 0 <= i < requests ==> (#[trigger] board.results@[i]) is None
            },
    {
        if requests == 0 || config.stages.len() == 0 {
            return None;
        }
        let mut stages: Vec<Stage> = Vec::new();
        let mut i: usize = 0;
        while i < config.stages.len()
            invariant
                i <= config.stages@.len(),
                stages@.len() == i,
                forall|j: int| 0 <= j < i ==> (#[trigger] stages@[j])@ == config.stages@[j]@,
            decreases config.stages@.len() - i,
        {
            let s = &config.stages[i];
            stages.push(
                stage(
                    s.name.as_str(),
                    s.model_name.as_str(),
                    s.system_prompt.as_str(),
                    s.temperature,
                    s.max_tokens,
                ),
            );
            i = i + 1;
        }
        let mut results: Vec<Option<Vec<StageResult>>> = Vec::new();
        let mut j: usize = 0;
        while j < requests
            invariant
                j <= requests,
                results@.len() == j,
                forall|k: int| 0 <= k < j ==> (#[trigger] results@[k]) is None,
            decreases requests - j,
        {
            results.push(None);
            j = j + 1;
        }
        Some(PipelineBoard { stages, results })
    }

    /// Takes in what a stage made of a request and tells who goes on with it.
    /// A request whose stage failed goes no further.
    pub fn record(&mut self, stage_idx: usize, req_idx: usize, outcome: Option<StageOutput>) -> (h:
        Option<Handover>)
        requires
            stage_idx < old(self).stages@.len(),
            req_idx < old(self).results@.len(),
        ensures
            final(self).stages == old(self).stages,
            final(self).results@.len() == old(self).results@.len(),
            forall|i: int|
                0 <= i < old(self).results@.len() && i != req_idx ==> #[trigger] final(self).results@[i] == old(self).results@[i],
            match outcome {
                None => *final(self) == *old(self) && h is None,
                Some(out) => {
                    &&& final(self).results@[req_idx as int] is Some
                    &&& results_of(final(self).results@[req_idx as int]) == results_of(
                        old(self).results@[req_idx as int],
                    ).push(kept(old(self).stages@[stage_idx as int], out))
                    &&& h is Some <==> stage_idx + 1 < old(self).stages@.len()
                    &&& h matches Some(n) ==> n.stage == stage_idx + 1 && n.request == req_idx
                        && n.input == out.text
                },
            },
    {
        let out = match outcome {
            Some(out) => out,
            None => return None,
        };
        let result = StageResult {
            stage_name: self.stages[stage_idx].name.clone(),
            output: StageIO::Text(out.text.clone()),
            tokens_generated: out.tokens,
            elapsed_ns: out.elapsed_ns,
        };
        let mut slot: Option<Vec<StageResult>> = None;
        self.results.set_and_swap(req_idx, &mut slot);
        let mut list: Vec<StageResult> = match slot {
            Some(v) => v,
            None => Vec::new(),
        };
        list.push(result);
        self.results.set(req_idx, Some(list));
        if stage_idx < self.stages.len() - 1 {
            Some(Handover { stage: stage_idx + 1, request: req_idx, input: out.text })
        } else {
            None
        }
    }

    /// What became of each request: its results, or nothing if its first stage
    /// gave none.
    pub fn finish(self) -> (r: Vec<Option<Vec<StageResult>>>)
        ensures
            r == self.results,
    {
        self.results
    }
}

/// The results of a request after the first `k` stages were taken in, in order.
pub open spec fn recorded(stages: Seq<Stage>, outs: Seq<StageOutput>, k: int) -> Seq<StageResult>
    decreases k,
{
    if k <= 0 {
        Seq::empty()
    } else {
        recorded(stages, outs, k - 1).push(kept(stages[k - 1], outs[k - 1]))
    }
}

/// A request that passed all stages on the board has the results that a run of
/// its own would have given.
pub proof fn law_board_agrees_with_run(stages: Seq<Stage>, outs: Seq<StageOutput>, k: int)
    requires
        0 <= k <= outs.len(),
    ensures
        recorded(stages, outs, k) == Seq::new(k as nat, |i: int| kept(stages[i], outs[i])),
    decreases k,
{
    if k > 0 {
        law_board_agrees_with_run(stages, outs, k - 1);
    }
    assert(recorded(stages, outs, k) =~= Seq::new(k as nat, |i: int| kept(stages[i], outs[i])));
}

/// A run that succeeded has one result per stage, in order, under the stage's name.  The
/// text of a result is what the next stage was run on, and the first stage was run on
/// the request.
pub proof fn law_text_passes_from_stage_to_stage<M, E, G: Fn(&Stage) -> Option<M>, R: Fn(
    &Stage,
    String,
    &M,
) -> Result<StageOutput, E>>(
    find: G,
    run: R,
    stages: Seq<Stage>,
    request: Seq<char>,
    inputs: Seq<String>,
    models: Seq<M>,
    outs: Seq<StageOutput>,
    results: Vec<StageResult>,
    i: int,
)
    requires
        run_outcome(
            find,
            run,
            stages,
            request,
            inputs,
            models,
            outs,
            Ok::<Vec<StageResult>, PipelineError<E>>(results),
        ),
        0 <= i < stages.len(),
    ensures
        results@.len() == stages.len(),
        inputs[0]@ == request,
        run.ensures((&stages[i], inputs[i], &models[i]), Ok(outs[i])),
        find.ensures((&stages[i],), Some(models[i])),
        results@[i].stage_name == stages[i].name,
        results@[i].output == StageIO::Text(outs[i].text),
        results@[i].tokens_generated == outs[i].tokens,
        results@[i].elapsed_ns == outs[i].elapsed_ns,
        i + 1 < stages.len() ==> inputs[i + 1] == outs[i].text,
{
    assert(stage_ran(find, run, stages[i], inputs[i], models[i], outs[i]));
    assert(inputs[i + 1] == outs[i].text);
}

/// The standard chain goes from the intent by way of strategy, code, audit, cleanup and
/// envelope to the report, with so many tokens for each stage.
pub proof fn law_standard_chain_is_in_order(i: int)
    requires
        0 <= i < 7,
    ensures
        standard_stage(i).name == seq![
            "intent"@,
            "strategy"@,
            "codegen"@,
            "audit"@,
            "cleanup"@,
            "envelope"@,
            "report"@,
        ][i],
        standard_stage(i).model_name == seq![
            "qwen-omni-7b"@,
            "deepseek-r1-1.5b"@,
            "glm-flash-3b"@,
            "phi-4-mini-3.8b"@,
            "smol-vlm"@,
            "llama4-1b"@,
            "glm-air"@,
        ][i],
        standard_stage(i).max_tokens == seq![256int, 512, 1024, 256, 128, 256, 512][i],
        standard_stage(i).temperature == seq![
            0x3dcc_cccdint,
            0x3e99_999a,
            0x3e4c_cccd,
            0x3dcc_cccd,
            0x3dcc_cccd,
            0,
            0x3ecc_cccd,
        ][i],
{
}

/// A run that failed did so at a stage of the chain, behind stages that all ran: a model
/// that is missing is the one of that stage.
pub proof fn law_failed_run_names_its_stage<M, E, G: Fn(&Stage) -> Option<M>, R: Fn(
    &Stage,
    String,
    &M,
) -> Result<StageOutput, E>>(
    find: G,
    run: R,
    stages: Seq<Stage>,
    request: Seq<char>,
    inputs: Seq<String>,
    models: Seq<M>,
    outs: Seq<StageOutput>,
    e: PipelineError<E>,
    i: int,
)
    requires
        run_outcome(
            find,
            run,
            stages,
            request,
            inputs,
            models,
            outs,
            Err::<Vec<StageResult>, PipelineError<E>>(e),
        ),
        0 <= i < outs.len(),
    ensures
        outs.len() < stages.len(),
        run.ensures((&stages[i], inputs[i], &models[i]), Ok(outs[i])),
        inputs[i + 1] == outs[i].text,
        e matches PipelineError::ModelNotFound(name) ==> name@ == stages[outs.len() as int].model_name@
            && find.ensures((&stages[outs.len() as int],), None),
        e matches PipelineError::Stage(x) ==> exists|m: M|
            find.ensures((&stages[outs.len() as int],), Some(m)) && #[trigger] run.ensures(
                (&stages[outs.len() as int], inputs[outs.len() as int], &m),
                Err(x),
            ),
{
    assert(stage_ran(find, run, stages[i], inputs[i], models[i], outs[i]));
    assert(inputs[i + 1] == outs[i].text);
}

} // verus!

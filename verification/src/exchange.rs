use crate::api::types::{is_power_of_two, power_of_two};
use crate::pipeline::{Pipeline, PipelineState};
use vstd::prelude::*;

verus! {

/// How commands reach the pipeline once it is started.
#[derive(Debug, Clone, Copy, PartialEq, Eq, Structural)]
pub enum ProducerType {
    Single,
    Multi,
}

/// How a ring-buffer side waits for the other.
#[derive(Debug, Clone, Copy, PartialEq, Eq, Structural)]
pub enum WaitStrategyType {
    BusySpin,
    Yielding,
    Blocking,
    Sleeping,
}

/// Configuration of an exchange core.
#[derive(Debug, Clone, Copy, PartialEq, Eq, Structural)]
pub struct ExchangeConfig {
    pub ring_buffer_size: usize,
    pub matching_engines_num: usize,
    pub risk_engines_num: usize,
    pub producer_type: ProducerType,
    pub wait_strategy: WaitStrategyType,
}

impl ExchangeConfig {
    /// Both shard counts are powers of two within the limits of shard
    /// numbers, and so is the ring buffer's size.
    pub open spec fn valid(self) -> bool {
        &&& power_of_two(self.matching_engines_num)
        &&& 0 < self.matching_engines_num <= 0x4000_0000
        &&& power_of_two(self.risk_engines_num)
        &&& 0 < self.risk_engines_num <= 0x4000_0000
    }

    /// Whether the configuration is valid.
    pub fn is_valid(&self) -> (r: bool)
        ensures
            r == self.valid(),
    {
        is_power_of_two(self.matching_engines_num) && self.matching_engines_num <= 0x4000_0000
            && is_power_of_two(self.risk_engines_num) && self.risk_engines_num <= 0x4000_0000
    }

    /// A ring buffer of 64 Ki slots, one shard of each kind, a single
    /// producer, busy spinning.
    pub open spec fn standard() -> ExchangeConfig {
        ExchangeConfig {
            ring_buffer_size: 65536,
            matching_engines_num: 1,
            risk_engines_num: 1,
            producer_type: ProducerType::Single,
            wait_strategy: WaitStrategyType::BusySpin,
        }
    }
}

impl Default for ExchangeConfig {
    fn default() -> (r: Self)
        ensures
            r == ExchangeConfig::standard(),
    {
        ExchangeConfig {
            ring_buffer_size: 64 * 1024,
            matching_engines_num: 1,
            risk_engines_num: 1,
            producer_type: ProducerType::Single,
            wait_strategy: WaitStrategyType::BusySpin,
        }
    }
}

/// The whole state of an exchange core as it is saved and loaded: the
/// configuration and the state of every shard.
pub struct ExchangeState {
    pub config: ExchangeConfig,
    pub pipeline_state: PipelineState,
}

/// The exchange core: the configuration and, until it is started, the
/// pipeline. Starting hands the pipeline over to whoever drives it behind
/// the ring buffer; from then on the core takes no commands itself and
/// writes no state out.
pub struct ExchangeCore {
    pub config: ExchangeConfig,
    pub pipeline: Option<Pipeline>,
}

impl ExchangeCore {
    pub open spec fn wf(&self) -> bool {
        self.pipeline matches Some(p) ==> p.wf()
    }

    /// The core has been started.
    pub open spec fn started(&self) -> bool {
        self.pipeline.is_none()
    }

    /// A core that is not started, with a pipeline of empty shards.
    pub fn new(config: ExchangeConfig) -> (core: Self)
        requires
            config.valid(),
        ensures
            core.wf(),
            !core.started(),
            core.config == config,
            core.pipeline.unwrap().fresh(&config),
    {
        let pipeline = Pipeline::new(&config);
        ExchangeCore { config, pipeline: Some(pipeline) }
    }

    /// Starts the core: the pipeline leaves it, to be driven by the one who
    /// gets it. A core that was started before has none to give.
    pub fn startup(&mut self) -> (pipeline: Option<Pipeline>)
        ensures
            pipeline == old(self).pipeline,
            final(self).started(),
            final(self).config == old(self).config,
    {
        self.pipeline.take()
    }

    /// Makes the symbol known to every shard; after the start this does
    /// nothing.
    pub fn add_symbol(&mut self, spec: crate::api::types::CoreSymbolSpecification)
        requires
            old(self).wf(),
        ensures
            final(self).wf(),
            final(self).started() == old(self).started(),
            final(self).config == old(self).config,
            !old(self).started() ==> final(self).pipeline.unwrap().with_symbol(
                &old(self).pipeline.unwrap(),
                spec,
            ),
    {
        match self.pipeline.take() {
            Some(mut p) => {
                p.add_symbol(spec);
                self.pipeline = Some(p);
            },
            None => {},
        }
    }

    /// Runs the command through the pipeline and returns it with its
    /// result. The core must not have been started.
    pub fn submit_command(&mut self, cmd: crate::api::commands::OrderCommand) -> (done:
        crate::api::commands::OrderCommand)
        requires
            old(self).wf(),
            !old(self).started(),
            old(self).pipeline.unwrap().admits(cmd),
        ensures
            final(self).wf(),
            !final(self).started(),
            final(self).config == old(self).config,
            exists|r1: Seq<crate::processors::risk_engine::RiskEngine>,
                c1: crate::api::commands::OrderCommand,
                c2: crate::api::commands::OrderCommand|
                {
                    &&& crate::pipeline::pre_stage(
                        old(self).pipeline.unwrap().risk_engines@,
                        cmd,
                        r1,
                        c1,
                    )
                    &&& #[trigger] crate::pipeline::match_stage(
                        old(self).pipeline.unwrap().matching_engines@,
                        c1,
                        final(self).pipeline.unwrap().matching_engines@,
                        c2,
                    )
                    &&& #[trigger] crate::pipeline::post_stage(
                        r1,
                        c2,
                        final(self).pipeline.unwrap().risk_engines@,
                        done,
                    )
                },
    {
        let mut cmd = cmd;
        let mut p: Pipeline = self.pipeline.take().unwrap();
        p.handle_event(&mut cmd, 0, true);
        self.pipeline = Some(p);
        cmd
    }

    /// Runs the command through the pipeline as far as every balance and
    /// volume stays within 64 bits, and returns it with what was done to
    /// it; says whether all was. A started core does nothing.
    pub fn try_submit_command(&mut self, cmd: crate::api::commands::OrderCommand) -> (r: (
        crate::api::commands::OrderCommand,
        bool,
    ))
        requires
            old(self).wf(),
        ensures
            final(self).wf(),
            final(self).started() == old(self).started(),
            final(self).config == old(self).config,
            r.1 == (!old(self).started() && old(self).pipeline.unwrap().admits(cmd)),
            old(self).started() ==> r.0 == cmd,
            r.1 ==> exists|r1: Seq<crate::processors::risk_engine::RiskEngine>,
                c1: crate::api::commands::OrderCommand,
                c2: crate::api::commands::OrderCommand|
                {
                    &&& crate::pipeline::pre_stage(
                        old(self).pipeline.unwrap().risk_engines@,
                        cmd,
                        r1,
                        c1,
                    )
                    &&& #[trigger] crate::pipeline::match_stage(
                        old(self).pipeline.unwrap().matching_engines@,
                        c1,
                        final(self).pipeline.unwrap().matching_engines@,
                        c2,
                    )
                    &&& #[trigger] crate::pipeline::post_stage(
                        r1,
                        c2,
                        final(self).pipeline.unwrap().risk_engines@,
                        r.0,
                    )
                },
    {
        let mut cmd = cmd;
        match self.pipeline.take() {
            Some(mut p) => {
                let ok: bool = p.try_handle_event(&mut cmd, 0, true);
                self.pipeline = Some(p);
                (cmd, ok)
            },
            None => (cmd, false),
        }
    }

    /// The state of the core, to be saved; none once the core is started.
    pub fn serialize_state(&self) -> (state: Option<ExchangeState>)
        requires
            self.wf(),
        ensures
            state.is_none() == self.started(),
            state matches Some(s) ==> s.config == self.config && s.pipeline_state.wf()
                && self.pipeline.unwrap().saved_as(&s.pipeline_state),
    {
        match &self.pipeline {
            Some(p) => Some(ExchangeState { config: self.config, pipeline_state: p.serialize_state() }),
            None => None,
        }
    }

    /// The core that a state was saved from, not started.
    pub fn from_state(state: ExchangeState) -> (core: Self)
        requires
            state.pipeline_state.wf(),
        ensures
            core.wf(),
            !core.started(),
            core.config == state.config,
            core.pipeline.unwrap().risk_engines == state.pipeline_state.risk_engines,
            core.pipeline.unwrap().saved_as(&state.pipeline_state),
            core.pipeline.unwrap().finds_all(&state.pipeline_state),
    {
        let ExchangeState { config, pipeline_state } = state;
        ExchangeCore { config, pipeline: Some(Pipeline::from_state(pipeline_state)) }
    }
}

} // verus!

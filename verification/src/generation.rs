//! The service as its callers see it: the options, and the admission of a
//! request for text.
use crate::cache::Matchers;
use crate::decoding::{servable, served, StopState};
use crate::error::ServiceError;
use crate::llama::{DriverState, LlamaService};
use crate::registry::{first_free, next_candidate, registered, slot_ids, Slot};
use vstd::prelude::*;

verus! {

/// How the engine is to be loaded.
pub struct LlamaGenerationOptions {
    pub model_path: String,
    pub use_gpu: bool,
    pub parallelism: u8,
}

/// The longest prompt, where the caller names none.
pub const DEFAULT_MAX_INPUT_LENGTH: usize = 1024;

/// The step budget, where the caller names none.
pub const DEFAULT_MAX_DECODING_LENGTH: usize = 256;

/// What a caller asks of one generation. The sampling temperature, which
/// only the engine reads, travels beside these options.
pub struct TextGenerationOptions {
    /// The longest prompt that the engine is to take.
    pub max_input_length: usize,
    /// The step budget: decoding ends after this many steps at the latest.
    pub max_decoding_length: usize,
    /// The words at which decoding ends as soon as the text ends with one.
    pub stop_words: Vec<String>,
}

impl Default for TextGenerationOptions {
    fn default() -> (options: Self)
        ensures
            options.max_input_length == DEFAULT_MAX_INPUT_LENGTH,
            options.max_decoding_length == DEFAULT_MAX_DECODING_LENGTH,
            options.stop_words@ == Seq::<String>::empty(),
    {
        TextGenerationOptions {
            max_input_length: DEFAULT_MAX_INPUT_LENGTH,
            max_decoding_length: DEFAULT_MAX_DECODING_LENGTH,
            stop_words: Vec::new(),
        }
    }
}

/// An admitted request: what the engine is to be told of it, beside the prompt.
#[derive(Clone, Copy, Debug, PartialEq, Eq, Structural)]
pub struct Admission {
    /// The id under which the engine reports the text of the request.
    pub request_id: u32,
    /// The longest prompt that the engine is to take.
    pub max_input_length: usize,
}

/// The text generation service around one engine.
pub struct LlamaGeneration {
    /// How the engine was loaded.
    pub options: LlamaGenerationOptions,
    /// The state of the driver.
    pub service: LlamaService,
}

impl LlamaGeneration {
    /// The service is in order when its driver is.
    pub open spec fn wf(&self) -> bool {
        self.service.wf()
    }

    /// The service around an engine that was to be loaded as `options` say.
    /// `engine_loaded` tells whether that worked: without an engine there is
    /// no service.
    pub fn new(options: LlamaGenerationOptions, engine_loaded: bool) -> (r: Result<Self, ServiceError>)
        ensures
            r is Ok <==> engine_loaded,
            r matches Err(e) ==> e == ServiceError::EngineLoadError,
            r matches Ok(generation) ==> {
                &&& generation.options == options
                &&& generation.wf()
                &&& generation.service.state() == DriverState::Running
                &&& generation.service.requests() == Seq::<Slot>::empty()
                &&& generation.service.next_id() == 1
                &&& generation.service.matchers() == Matchers::empty()
                &&& generation.service.empty_steps() == 0
            },
    {
        if engine_loaded {
            Ok(LlamaGeneration { options, service: LlamaService::new() })
        } else {
            Err(ServiceError::EngineLoadError)
        }
    }

    /// Admits a request for a stream of text. What is returned is to be handed
    /// to the engine together with the prompt; the fragments then come out of
    /// the driver's steps, under the id of the admission.
    pub fn generate_stream(&mut self, options: TextGenerationOptions) -> (r: Result<
        Admission,
        ServiceError,
    >)
        requires
            old(self).wf(),
        ensures
            final(self).wf(),
            final(self).options == old(self).options,
            final(self).service.state() == old(self).service.state(),
            r is Ok <==> old(self).service.state() == DriverState::Running && old(
                self,
            ).service.requests().len() < 0x1_0000_0000 && servable(
                old(self).service.matchers(),
                options.stop_words.deep_view(),
            ),
            r matches Ok(admission) ==> {
                let state = final(self).service.requests().last().state;
                &&& admission.max_input_length == options.max_input_length
                &&& Some(admission.request_id) == first_free(
                    slot_ids(old(self).service.requests()),
                    old(self).service.next_id(),
                    old(self).service.requests().len(),
                )
                &&& !registered(old(self).service.requests(), admission.request_id)
                &&& registered(final(self).service.requests(), admission.request_id)
                &&& final(self).service.next_id() == next_candidate(admission.request_id)
                &&& final(self).service.requests() == old(self).service.requests().push(
                    Slot { id: admission.request_id, state },
                )
                &&& state == StopState::initial(
                    state.matcher,
                    options.max_decoding_length as nat,
                    Seq::empty(),
                )
                &&& served(
                    old(self).service.matchers(),
                    options.stop_words.deep_view(),
                    final(self).service.matchers(),
                    state.matcher,
                )
            },
            r matches Err(e) ==> {
                &&& final(self).service.requests() == old(self).service.requests()
                &&& final(self).service.next_id() == old(self).service.next_id()
                &&& final(self).service.matchers() == old(self).service.matchers()
                &&& e == (if old(self).service.state() == DriverState::Faulted {
                    ServiceError::EngineStepError
                } else if old(self).service.requests().len() >= 0x1_0000_0000 {
                    ServiceError::NoFreeId
                } else {
                    ServiceError::InvalidOptions
                })
            },
    {
        let max_input_length = options.max_input_length;
        match self.service.add_request(options.max_decoding_length, options.stop_words) {
            Ok(request_id) => Ok(Admission { request_id, max_input_length }),
            Err(e) => Err(e),
        }
    }
}

} // verus!

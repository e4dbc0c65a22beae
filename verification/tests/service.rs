use akira::error::ServiceError;
use akira::generation::{
    Admission, LlamaGeneration, LlamaGenerationOptions, TextGenerationOptions,
    DEFAULT_MAX_DECODING_LENGTH, DEFAULT_MAX_INPUT_LENGTH,
};
use akira::helpers::{stream_to_string, string_to_stream};
use akira::llama::{idle_wait, Delivery, LlamaService, NextMove, StepOutput, IDLE_WAIT_CAP_MS};
use akira::registry::{Dispatch, Registry};
use akira::decoding::StopCondition;

fn out(request_id: u32, text: &str) -> StepOutput {
    StepOutput { request_id, text: text.to_string() }
}

fn show(sent: &[Delivery]) -> Vec<(u32, String, bool)> {
    sent.iter().map(|d| (d.request_id, d.text.clone(), d.last)).collect()
}

fn fragments_of(sent: &[Delivery], request_id: u32) -> Vec<String> {
    sent.iter().filter(|d| d.request_id == request_id).map(|d| d.text.clone()).collect()
}

#[test]
fn example_two_requests_share_the_steps() {
    let mut service = LlamaService::new();
    assert_eq!(service.add_request(256, Vec::new()), Ok(1));
    assert_eq!(service.add_request(256, Vec::new()), Ok(2));
    let mut sent = service.step_done(vec![out(1, "He"), out(2, "Wo")]);
    sent.extend(service.step_done(vec![out(1, "llo")]));
    assert_eq!(fragments_of(&sent, 1), vec!["He", "llo"]);
    assert_eq!(fragments_of(&sent, 2), vec!["Wo"]);
    assert!(sent.iter().all(|d| !d.last));
    assert!(service.is_active(1));
    assert!(service.is_active(2));
    assert_eq!(service.active(), 2);
}

#[test]
fn stop_word_closes_the_request_with_its_last_text() {
    let mut service = LlamaService::new();
    let id = service.add_request(256, vec!["\n\n".to_string()]).unwrap();
    let mut sent = Vec::new();
    for delta in ["a", "b", "\n", "\n"] {
        sent.extend(service.step_done(vec![out(id, delta)]));
    }
    assert_eq!(
        show(&sent),
        vec![
            (id, "a".to_string(), false),
            (id, "b".to_string(), false),
            (id, "\n".to_string(), false),
            (id, "\n".to_string(), true),
        ]
    );
    assert!(!service.is_active(id));
    assert_eq!(stream_to_string(fragments_of(&sent, id)), "ab\n\n");
}

#[test]
fn budget_closes_the_request() {
    let mut service = LlamaService::new();
    let id = service.add_request(3, Vec::new()).unwrap();
    let sent = service.step_done(vec![out(id, "x"), out(id, "y"), out(id, "z"), out(id, "w")]);
    assert_eq!(
        show(&sent),
        vec![(id, "x".to_string(), false), (id, "y".to_string(), false), (id, "z".to_string(), true)]
    );
    assert_eq!(service.active(), 0);
}

#[test]
fn budget_of_zero_ends_with_the_first_output() {
    let mut service = LlamaService::new();
    let id = service.add_request(0, Vec::new()).unwrap();
    let sent = service.step_done(vec![out(id, "")]);
    assert_eq!(show(&sent), vec![(id, String::new(), true)]);
    assert!(!service.is_active(id));
}

#[test]
fn output_for_a_removed_request_is_dropped() {
    let mut service = LlamaService::new();
    let one = service.add_request(256, Vec::new()).unwrap();
    let two = service.add_request(256, Vec::new()).unwrap();
    assert_eq!(service.cancel(one), Ok(()));
    let sent = service.step_done(vec![out(one, "late"), out(two, "on time"), out(77, "stray")]);
    assert_eq!(show(&sent), vec![(two, "on time".to_string(), false)]);
    assert_eq!(service.dispatch(one, "later"), Dispatch::Discard);
    assert!(!service.is_active(one));
    assert_eq!(service.active(), 1);
}

#[test]
fn cancel_is_idempotent() {
    let mut service = LlamaService::new();
    let id = service.add_request(256, Vec::new()).unwrap();
    assert_eq!(service.cancel(id), Ok(()));
    assert_eq!(service.cancel(id), Err(ServiceError::RequestNotFound));
    assert_eq!(service.cancel(123), Err(ServiceError::RequestNotFound));
    assert_eq!(service.active(), 0);
}

#[test]
fn ids_are_given_out_in_turn() {
    let mut service = LlamaService::new();
    assert_eq!(service.add_request(1, Vec::new()), Ok(1));
    assert_eq!(service.add_request(1, Vec::new()), Ok(2));
    assert_eq!(service.cancel(1), Ok(()));
    assert_eq!(service.add_request(1, Vec::new()), Ok(3));
    assert_eq!(service.add_request(1, Vec::new()), Ok(4));
}

#[test]
fn failed_step_faults_the_driver() {
    let mut service = LlamaService::new();
    let one = service.add_request(256, Vec::new()).unwrap();
    let two = service.add_request(256, vec!["x".to_string()]).unwrap();
    let three = service.add_request(256, Vec::new()).unwrap();
    assert_eq!(service.cancel(two), Ok(()));
    assert!(!service.is_faulted());
    assert_eq!(service.step_failed(), vec![one, three]);
    assert!(service.is_faulted());
    assert_eq!(service.active(), 0);
    assert_eq!(service.next_move(), NextMove::Halt);
    assert_eq!(service.add_request(256, Vec::new()), Err(ServiceError::EngineStepError));
    assert!(service.step_done(vec![out(one, "late")]).is_empty());
    assert!(service.step_failed().is_empty());
    assert!(service.is_faulted());
}

#[test]
fn invalid_stop_words_are_refused_before_anything_changes() {
    let mut service = LlamaService::new();
    let huge = "a".repeat(1_000_000);
    assert_eq!(service.add_request(256, vec![huge]), Err(ServiceError::InvalidOptions));
    assert_eq!(service.active(), 0);
    assert_eq!(service.add_request(256, Vec::new()), Ok(1));
}

#[test]
fn idle_wait_doubles_up_to_the_cap() {
    let waits: Vec<u64> = (0..10).map(idle_wait).collect();
    assert_eq!(waits, vec![0, 1, 2, 4, 8, 16, 32, 64, 64, 64]);
    assert_eq!(idle_wait(u32::MAX), IDLE_WAIT_CAP_MS);
    assert_eq!(IDLE_WAIT_CAP_MS, 64);
}

#[test]
fn empty_steps_make_the_driver_wait() {
    let mut service = LlamaService::new();
    assert_eq!(service.next_move(), NextMove::StepAfter(0));
    assert!(service.step_done(Vec::new()).is_empty());
    assert_eq!(service.next_move(), NextMove::StepAfter(1));
    service.step_done(Vec::new());
    service.step_done(Vec::new());
    assert_eq!(service.next_move(), NextMove::StepAfter(4));
    let id = service.add_request(256, Vec::new()).unwrap();
    assert_eq!(service.next_move(), NextMove::StepAfter(0));
    service.step_done(Vec::new());
    assert_eq!(service.next_move(), NextMove::StepAfter(1));
    service.step_done(vec![out(id, "x")]);
    assert_eq!(service.next_move(), NextMove::StepAfter(0));
    for _ in 0..20 {
        service.step_done(Vec::new());
    }
    assert_eq!(service.next_move(), NextMove::StepAfter(64));
}

#[test]
fn registry_registers_dispatches_and_cancels() {
    let mut registry = Registry::new();
    assert_eq!(registry.len(), 0);
    assert_eq!(registry.free_id(), Some(1));
    assert_eq!(registry.register(StopCondition::new(None, 2, "")), Some(1));
    assert_eq!(registry.register(StopCondition::new(None, 2, "")), Some(2));
    assert_eq!(registry.ids(), vec![1, 2]);
    assert!(registry.contains(1));
    assert!(!registry.contains(3));
    assert_eq!(registry.dispatch(3, "x"), Dispatch::Discard);
    assert_eq!(registry.dispatch(1, "x"), Dispatch::Deliver);
    assert_eq!(registry.dispatch(1, "y"), Dispatch::DeliverAndClose);
    assert_eq!(registry.dispatch(1, "z"), Dispatch::Discard);
    assert_eq!(registry.ids(), vec![2]);
    assert!(registry.cancel(2));
    assert!(!registry.cancel(2));
    assert_eq!(registry.len(), 0);
    assert_eq!(registry.free_id(), Some(3));
}

#[test]
fn registry_keeps_the_order_of_admission() {
    let mut registry = Registry::new();
    for _ in 0..4 {
        registry.register(StopCondition::new(None, 9, ""));
    }
    assert_eq!(registry.dispatch(2, "x"), Dispatch::Deliver);
    assert!(registry.cancel(3));
    assert_eq!(registry.ids(), vec![1, 2, 4]);
    assert_eq!(registry.drain(), vec![1, 2, 4]);
    assert_eq!(registry.len(), 0);
    assert_eq!(registry.register(StopCondition::new(None, 9, "")), Some(5));
}

#[test]
fn fragments_add_up_in_their_order() {
    let fragments = vec!["He".to_string(), "".to_string(), "llo".to_string(), " wörld".to_string()];
    assert_eq!(stream_to_string(fragments), "Hello wörld");
    assert_eq!(stream_to_string(Vec::new()), "");
}

#[test]
fn text_as_one_fragment() {
    assert_eq!(string_to_stream("abc".to_string()), vec!["abc".to_string()]);
    assert_eq!(stream_to_string(string_to_stream("abc".to_string())), "abc");
}

#[test]
fn options_have_their_defaults() {
    let options = TextGenerationOptions::default();
    assert_eq!(options.max_input_length, 1024);
    assert_eq!(options.max_decoding_length, 256);
    assert!(options.stop_words.is_empty());
    assert_eq!(DEFAULT_MAX_INPUT_LENGTH, 1024);
    assert_eq!(DEFAULT_MAX_DECODING_LENGTH, 256);
}

fn engine_options() -> LlamaGenerationOptions {
    LlamaGenerationOptions { model_path: "model.gguf".to_string(), use_gpu: false, parallelism: 1 }
}

#[test]
fn no_engine_no_service() {
    assert_eq!(LlamaGeneration::new(engine_options(), false).err(), Some(ServiceError::EngineLoadError));
    assert!(LlamaGeneration::new(engine_options(), true).is_ok());
}

#[test]
fn generate_stream_admits_without_waiting() {
    let mut generation = LlamaGeneration::new(engine_options(), true).unwrap();
    let options = TextGenerationOptions {
        max_input_length: 2048,
        max_decoding_length: 2,
        stop_words: vec!["\n\n".to_string()],
    };
    assert_eq!(generation.generate_stream(options), Ok(Admission { request_id: 1, max_input_length: 2048 }));
    assert_eq!(
        generation.generate_stream(TextGenerationOptions::default()),
        Ok(Admission { request_id: 2, max_input_length: 1024 })
    );
    let sent = generation.service.step_done(vec![out(1, "a"), out(2, "b"), out(1, "c"), out(2, "d")]);
    assert_eq!(stream_to_string(fragments_of(&sent, 1)), "ac");
    assert_eq!(stream_to_string(fragments_of(&sent, 2)), "bd");
    assert!(!generation.service.is_active(1));
    assert!(generation.service.is_active(2));
}

#[test]
fn generate_is_the_stream_put_together() {
    let mut generation = LlamaGeneration::new(engine_options(), true).unwrap();
    let options = TextGenerationOptions { max_input_length: 16, max_decoding_length: 64, stop_words: vec!["}".to_string()] };
    let id = generation.generate_stream(options).unwrap().request_id;
    let mut stream = Vec::new();
    for batch in [vec![out(id, "int gcd")], vec![], vec![out(id, "() {"), out(id, " }")], vec![out(id, "never")]] {
        stream.extend(fragments_of(&generation.service.step_done(batch), id));
    }
    assert_eq!(stream, vec!["int gcd", "() {", " }"]);
    assert_eq!(stream_to_string(stream), "int gcd() { }");
}

use eullm::chat_template::{strip_reasoning_blocks, ChatTemplate};

#[test]
fn a_qwen3_think_block_is_dropped_and_the_answer_kept() {
    let turn = "<think>\nThe user greets me. Answer warmly.\n</think>\n\nCiao! Come stai?";
    assert_eq!(strip_reasoning_blocks(turn), "Ciao! Come stai?");
}

#[test]
fn a_gemma_channel_thought_is_dropped() {
    let turn = "<|channel>thought\nreasoning here<channel|>The answer.";
    assert_eq!(strip_reasoning_blocks(turn), "The answer.");
}

/// The case that motivated this: a turn cut off mid-thought by the context
/// limit. There is no answer after the opener, so nothing is worth keeping
/// from it — but the turn must not come back empty either.
#[test]
fn an_unclosed_think_block_falls_back_to_the_original() {
    let turn = "<think>\nStill reasoning when the context ran out";
    // Stripping leaves nothing, so the original is preserved rather than
    // storing an empty assistant turn.
    assert_eq!(strip_reasoning_blocks(turn), turn);
}

#[test]
fn text_before_an_unclosed_opener_survives() {
    let turn = "Partial answer.<think>\nthen it ran out";
    assert_eq!(strip_reasoning_blocks(turn), "Partial answer.");
}

#[test]
fn a_turn_with_no_reasoning_is_untouched() {
    let turn = "Just a plain answer, no reasoning at all.";
    assert_eq!(strip_reasoning_blocks(turn), turn);
}

#[test]
fn several_blocks_in_one_turn_are_all_dropped() {
    let turn = "<think>a</think>First. <think>b</think>Second.";
    assert_eq!(strip_reasoning_blocks(turn), "First. Second.");
}

/// A `<think>` written by the *user* inside their own message is not
/// reasoning the model produced, but this runs only on assistant turns, so
/// the asymmetry is intentional and worth pinning: whatever is between the
/// delimiters goes, wherever it sits.
#[test]
fn stripping_is_purely_positional_not_semantic() {
    let turn = "Answer <think>aside</think> continues.";
    assert_eq!(strip_reasoning_blocks(turn), "Answer continues.");
}


#[test]
fn test_detect_gemma() {
    assert_eq!(
        ChatTemplate::detect("gemma-4-e4b-it-Q4_K_M.gguf"),
        ChatTemplate::Gemma
    );
    assert_eq!(
        ChatTemplate::detect("gemma2-9b-it.gguf"),
        ChatTemplate::Gemma
    );
}

#[test]
fn test_detect_llama2() {
    assert_eq!(
        ChatTemplate::detect("llama-2-7b-chat.gguf"),
        ChatTemplate::Llama2
    );
    // Llama 3 should NOT match Llama2
    assert_eq!(
        ChatTemplate::detect("llama-3.1-8b-instruct.gguf"),
        ChatTemplate::ChatML
    );
}

#[test]
fn test_detect_default_chatml() {
    assert_eq!(
        ChatTemplate::detect("qwen3-14b-q4_k_m.gguf"),
        ChatTemplate::ChatML
    );
    assert_eq!(
        ChatTemplate::detect("mistral-7b-instruct.gguf"),
        ChatTemplate::ChatML
    );
    assert_eq!(
        ChatTemplate::detect("phi-3-mini.gguf"),
        ChatTemplate::ChatML
    );
}

#[test]
fn r1_distills_get_the_deepseek_template_not_chatml() {
    // The store id of the model this was found on. ChatML was the
    // fallback, and on this family it produced an empty answer in six
    // tokens, deterministically.
    assert_eq!(
        ChatTemplate::detect("deepseek-r1-distill-14b"),
        ChatTemplate::DeepSeekR1
    );
    assert_eq!(
        ChatTemplate::detect("DeepSeek-R1-Distill-Qwen-14B-Q4_K_M.gguf"),
        ChatTemplate::DeepSeekR1
    );
    // QwQ reasons too but is ChatML-trained: must not be caught.
    assert_eq!(ChatTemplate::detect("qwq-32b"), ChatTemplate::ChatML);
}

#[test]
fn deepseek_prompt_has_the_shape_the_model_was_trained_on() {
    let msgs = vec![
        ("system", "Sei un assistente."),
        ("user", "ciao"),
        ("assistant", "salve"),
        ("user", "come va?"),
    ];
    let p = ChatTemplate::DeepSeekR1.build_prompt(&msgs, true);
    assert_eq!(
        p,
        "Sei un assistente.<｜User｜>ciao<｜Assistant｜>salve<｜end▁of▁sentence｜><｜User｜>come va?<｜Assistant｜>"
    );
    // No BOS in the text: the engine adds it at tokenization
    // (AddBos::Always), and a doubled BOS is exactly the class of
    // off-by-one this template exists to end.
    assert!(!p.contains("begin▁of▁sentence"));
}

#[test]
fn deepseek_history_drops_the_reasoning_like_the_official_template() {
    // tokenizer_config.json: {% if '</think>' in content %}
    //   {% set content = content.split('</think>')[-1] %}
    let msgs = vec![
        ("user", "2+2?"),
        ("assistant", "<think>\nlet me count\n</think>\n\n4"),
        ("user", "e 3+3?"),
    ];
    let p = ChatTemplate::DeepSeekR1.build_prompt(&msgs, true);
    assert!(p.contains("<｜Assistant｜>4<｜end▁of▁sentence｜>"));
    assert!(!p.contains("let me count"));
}

#[test]
fn deepseek_think_toggle_injects_nothing() {
    // R1-family models are always-reasoning: a pre-closed empty think
    // block is malformed input to them, not a switch. think=false must
    // therefore change nothing in the prompt.
    let msgs = vec![("user", "ciao")];
    assert_eq!(
        ChatTemplate::DeepSeekR1.build_prompt(&msgs, false),
        ChatTemplate::DeepSeekR1.build_prompt(&msgs, true)
    );
}

#[test]
fn test_stop_sequences() {
    assert_eq!(ChatTemplate::ChatML.stop_sequences(), vec!["<|im_end|>"]);
    assert_eq!(
        ChatTemplate::Gemma.stop_sequences(),
        vec!["<end_of_turn>", "</end_of_turn>", "</start_of_turn>"]
    );
}

// The closing-tag form reached a user at the end of a transcription. It is
// ordinary text to the model, so only the stop list keeps it out.
#[test]
fn gemma_stops_on_the_closing_tag_the_model_actually_writes() {
    let stops = ChatTemplate::Gemma.stop_sequences();
    assert!(stops.iter().any(|s| s == "</start_of_turn>"));
}

#[test]
fn test_gemma_role_mapping() {
    let msgs = vec![
        ("system", "You are helpful."),
        ("user", "Hello"),
        ("assistant", "Hi there!"),
        ("user", "How are you?"),
    ];
    let prompt = ChatTemplate::Gemma.build_prompt(&msgs, false);
    assert!(prompt.contains("<start_of_turn>model\nHi there!"));
    assert!(prompt.contains("<start_of_turn>system\n"));
    assert!(!prompt.contains("<start_of_turn>assistant"));
    assert!(prompt.ends_with("<start_of_turn>model\n"));
}

#[test]
fn test_chatml_no_think() {
    let msgs = vec![("user", "hello")];
    let prompt = ChatTemplate::ChatML.build_prompt(&msgs, false);
    // Byte-for-byte what Qwen3's own template emits for
    // enable_thinking=false, blank line included. A single \n here made
    // the model echo `</think>` back as visible assistant text.
    assert!(prompt.contains("<think>\n\n</think>\n\n"));
    assert!(prompt.ends_with("<think>\n\n</think>\n\n"));
}

#[test]
fn test_think_suppression_prefix_round_trips_into_build_prompt() {
    // What think_suppression_prefix() returns must be exactly the text
    // build_prompt actually injects when think=false — otherwise a
    // caller reconstructing history with it would still produce text
    // that doesn't match what was really resident in that turn's KV
    // cache (the bug this function exists to let callers avoid).
    let msgs = vec![("user", "hello")];
    let suppressed = ChatTemplate::ChatML.build_prompt(&msgs, false);
    let normal = ChatTemplate::ChatML.build_prompt(&msgs, true);
    assert_eq!(
        suppressed,
        format!(
            "{normal}{}",
            ChatTemplate::ChatML.think_suppression_prefix()
        )
    );
}

#[test]
fn test_think_suppression_prefix_empty_for_non_chatml() {
    assert_eq!(ChatTemplate::Gemma.think_suppression_prefix(), "");
    assert_eq!(ChatTemplate::Llama2.think_suppression_prefix(), "");
}

#[test]
fn llama2_puts_the_system_prompt_into_the_first_user_turn() {
    let msgs = vec![
        ("system", "Be brief."),
        ("user", "hi"),
        ("assistant", "hello"),
        ("user", "bye"),
    ];
    assert_eq!(
        ChatTemplate::Llama2.build_prompt(&msgs, true),
        "<s>[INST] <<SYS>>\nBe brief.\n<</SYS>>\n\nhi [/INST] hello </s><s>[INST] bye [/INST]"
    );
}

#[test]
fn the_last_system_message_before_the_first_user_turn_counts() {
    let msgs = vec![("system", "a"), ("system", "b"), ("tool", "x"), ("user", "hi"), ("system", "c"), ("user", "yo")];
    assert_eq!(
        ChatTemplate::Llama2.build_prompt(&msgs, false),
        "<s>[INST] <<SYS>>\nb\n<</SYS>>\n\nhi [/INST]<s>[INST] yo [/INST]"
    );
}

#[test]
fn chatml_writes_every_role_as_it_is() {
    let msgs = vec![("system", "s"), ("user", "u"), ("tool", "t")];
    assert_eq!(
        ChatTemplate::ChatML.build_prompt(&msgs, true),
        "<|im_start|>system\ns<|im_end|>\n<|im_start|>user\nu<|im_end|>\n<|im_start|>tool\nt<|im_end|>\n<|im_start|>assistant\n"
    );
}

#[test]
fn the_next_prompt_starts_with_the_last_one_and_its_reply() {
    for template in [ChatTemplate::ChatML, ChatTemplate::Gemma] {
        for think in [true, false] {
            let first = vec![("system", "s"), ("user", "hello")];
            let start = format!("{}Hi!", template.build_prompt(&first, think));
            let stored = if think {
                "Hi!".to_string()
            } else {
                format!("{}Hi!", template.think_suppression_prefix())
            };
            let next = vec![
                ("system", "s"),
                ("user", "hello"),
                ("assistant", stored.as_str()),
                ("user", "more"),
            ];
            assert!(template.build_prompt(&next, think).starts_with(&start));
        }
    }
}

#[test]
fn a_capitalised_name_is_recognised_all_the_same() {
    assert_eq!(ChatTemplate::detect("GEMMA-3"), ChatTemplate::Gemma);
    assert_eq!(ChatTemplate::detect("Llama2-chat"), ChatTemplate::Llama2);
    assert_eq!(ChatTemplate::detect_lower("GEMMA-3"), ChatTemplate::ChatML);
}

#[test]
fn an_answer_with_several_closed_blocks_keeps_what_follows_the_last() {
    let msgs = vec![("assistant", "a</think>b</think>  c")];
    assert_eq!(
        ChatTemplate::DeepSeekR1.build_prompt(&msgs, true),
        "<｜Assistant｜>c<｜end▁of▁sentence｜><｜Assistant｜>"
    );
}

#[test]
fn a_turn_of_blanks_is_kept() {
    assert_eq!(strip_reasoning_blocks("   "), "   ");
    assert_eq!(strip_reasoning_blocks("<think>x</think>   "), "<think>x</think>   ");
    assert_eq!(strip_reasoning_blocks(""), "");
}

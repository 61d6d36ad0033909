//! The choice of image-embedding engine and the status report around it.
//! Running the models and comparing their vectors is floating-point work
//! that the application does.

use vstd::prelude::*;
use crate::models::AiStatus;
use crate::text::{chars_of, chars_equal, string_from_chars};

verus! {

/// The engines that can compute image embeddings.
#[derive(Debug, Clone, Copy, PartialEq, Eq, Structural)]
pub enum AiEngine {
    Tract,
    Ort,
}

pub open spec fn spec_engine_name(engine: AiEngine) -> Seq<char> {
    match engine {
        AiEngine::Tract => "tract (Pure Rust)"@,
        AiEngine::Ort => "ort (ONNX Runtime)"@,
    }
}

/// The name shown for an engine.
pub fn engine_name(engine: AiEngine) -> (r: &'static str)
    ensures
        r@ == spec_engine_name(engine),
{
    match engine {
        AiEngine::Tract => "tract (Pure Rust)",
        AiEngine::Ort => "ort (ONNX Runtime)",
    }
}

/// The number under which the engine in use is stored.
pub open spec fn spec_engine_code(engine: AiEngine) -> u8 {
    match engine {
        AiEngine::Tract => 0,
        AiEngine::Ort => 1,
    }
}

/// The engine a stored number stands for: 1 is `Ort`, anything else `Tract`.
pub open spec fn spec_engine_from_code(code: u8) -> AiEngine {
    if code == 1 {
        AiEngine::Ort
    } else {
        AiEngine::Tract
    }
}

/// The number under which an engine is stored.
pub fn engine_code(engine: AiEngine) -> (r: u8)
    ensures
        r == spec_engine_code(engine),
{
    match engine {
        AiEngine::Tract => 0,
        AiEngine::Ort => 1,
    }
}

/// The engine a stored number stands for.
pub fn engine_from_code(code: u8) -> (r: AiEngine)
    ensures
        r == spec_engine_from_code(code),
{
    if code == 1 {
        AiEngine::Ort
    } else {
        AiEngine::Tract
    }
}

/// Reading back the engine that was stored gives that engine; every stored
/// number reads as `Ort` exactly when it is the number `Ort` is stored as.
pub proof fn lemma_engine_code_round_trip(engine: AiEngine, code: u8)
    ensures
        spec_engine_from_code(spec_engine_code(engine)) == engine,
        (spec_engine_from_code(code) == AiEngine::Ort) <==> (code == spec_engine_code(AiEngine::Ort)),
{
}

/// The message refusing an engine name.
pub open spec fn unknown_engine_message(name: Seq<char>) -> Seq<char> {
    "Unknown engine: "@ + name
}

/// The engine named `"ort"` or `"tract"`; any other name is refused.
pub open spec fn spec_parse_engine(name: Seq<char>) -> Option<AiEngine> {
    if name == "ort"@ {
        Some(AiEngine::Ort)
    } else if name == "tract"@ {
        Some(AiEngine::Tract)
    } else {
        None
    }
}

/// The engine a user names, or the message refusing the name.
pub fn parse_engine(name: &str) -> (r: Result<AiEngine, String>)
    ensures
        match spec_parse_engine(name@) {
            Some(e) => r == Ok::<AiEngine, String>(e),
            None => r matches Err(msg) && msg@ == unknown_engine_message(name@),
        },
{
    proof {
        reveal_strlit("ort");
        reveal_strlit("tract");
        reveal_strlit("Unknown engine: ");
    }
    let cs = chars_of(name);
    let ort = chars_of("ort");
    let tract = chars_of("tract");
    if chars_equal(cs.as_slice(), ort.as_slice()) {
        Ok(AiEngine::Ort)
    } else if chars_equal(cs.as_slice(), tract.as_slice()) {
        Ok(AiEngine::Tract)
    } else {
        let mut msg = chars_of("Unknown engine: ");
        crate::text::append_chars(&mut msg, cs.as_slice());
        Err(string_from_chars(msg.as_slice()))
    }
}

/// The name of the model the embeddings come from.
pub open spec fn model_name() -> Seq<char> {
    "MobileNet-v3-Small"@
}

pub open spec fn enabled_message() -> Seq<char> {
    "AI 向量检测已启用"@
}

pub open spec fn disabled_message() -> Seq<char> {
    "AI 模型未加载，仅使用 pHash"@
}

/// The status report: with a model loaded, the model, the engine in use and
/// a message that embeddings are on; without one, empty names and a message
/// that only hashes are used.
pub fn ai_status(available: bool, engine: AiEngine) -> (r: AiStatus)
    ensures
        r.available == available,
        available ==> r.model_name@ == model_name() && r.engine@ == spec_engine_name(engine) && r.message@
            == enabled_message(),
        !available ==> r.model_name@ == Seq::<char>::empty() && r.engine@ == Seq::<char>::empty() && r.message@
            == disabled_message(),
{
    if available {
        AiStatus {
            available: true,
            model_name: "MobileNet-v3-Small".to_string(),
            engine: engine_name(engine).to_string(),
            message: "AI 向量检测已启用".to_string(),
        }
    } else {
        AiStatus {
            available: false,
            model_name: String::new(),
            engine: String::new(),
            message: "AI 模型未加载，仅使用 pHash".to_string(),
        }
    }
}

} // verus!

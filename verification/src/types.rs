//! Plain configuration and report types shared with the surrounding
//! application, with the default values their constructors promise.

use vstd::prelude::*;
use vstd::string::StrSliceExecFns;

verus! {

/// Application configuration.
pub struct AppConfig {
    pub theme: String,
    pub language: String,
    pub font_size: u16,
    pub auto_save: bool,
    pub notifications: bool,
    pub active_model_id: Option<String>,
    pub active_provider_id: Option<String>,
}

impl Default for AppConfig {
    /// The configuration a fresh installation starts with.
    fn default() -> (r: AppConfig)
        ensures
            r.theme@ == "dark"@,
            r.language@ == "zh"@,
            r.font_size == 16,
            r.auto_save,
            r.notifications,
            r.active_model_id is None,
            r.active_provider_id is None,
    {
        AppConfig {
            theme: "dark".to_owned(),
            language: "zh".to_owned(),
            font_size: 16,
            auto_save: true,
            notifications: true,
            active_model_id: None,
            active_provider_id: None,
        }
    }
}

/// How deeply the reasoning mode thinks.
#[derive(Clone, Copy, Debug, PartialEq, Eq, Structural)]
pub enum ThinkingDepth {
    Surface,
    Moderate,
    Deep,
}

impl Default for ThinkingDepth {
    fn default() -> (r: ThinkingDepth)
        ensures
            r == ThinkingDepth::Surface,
    {
        ThinkingDepth::Surface
    }
}

/// Agent model assignments.
pub struct AceConfig {
    pub fast_model_id: String,
    pub reflector_model_id: String,
    pub curator_model_id: String,
}

impl Default for AceConfig {
    fn default() -> (r: AceConfig)
        ensures
            r.fast_model_id@ == Seq::<char>::empty(),
            r.reflector_model_id@ == Seq::<char>::empty(),
            r.curator_model_id@ == Seq::<char>::empty(),
    {
        AceConfig {
            fast_model_id: String::new(),
            reflector_model_id: String::new(),
            curator_model_id: String::new(),
        }
    }
}

/// The configuration shape kept for older installations.
pub struct LegacyAppConfig {
    pub theme: String,
    pub language: String,
    pub active_model: String,
    pub provider: String,
}

impl Default for LegacyAppConfig {
    fn default() -> (r: LegacyAppConfig)
        ensures
            r.theme@ == "system"@,
            r.language@ == "en"@,
            r.active_model@ == "gpt-4"@,
            r.provider@ == "openai"@,
    {
        LegacyAppConfig {
            theme: "system".to_owned(),
            language: "en".to_owned(),
            active_model: "gpt-4".to_owned(),
            provider: "openai".to_owned(),
        }
    }
}

/// The report of a provider validation call.
pub struct ValidationResult {
    pub valid: bool,
    pub message: String,
    pub latency_ms: Option<u64>,
}

/// The report of a model availability check.
pub struct ModelValidationResult {
    pub success: bool,
    pub latency: u64,
    pub message: String,
}

/// One saved drawing scene, as listed.
pub struct SceneInfo {
    pub id: String,
    pub conversation_id: String,
    pub created_at: u64,
    pub updated_at: u64,
    pub element_count: usize,
    pub name: Option<String>,
}

/// One exported drawing, as listed.
pub struct ExportInfo {
    pub filename: String,
    pub path: String,
    pub size: u64,
    pub created_at: u64,
}

/// What a tool invocation handed back.
pub struct McpToolResult {
    pub success: bool,
    pub content: crate::json::JsonValue,
    pub is_error: bool,
}

} // verus!

//! Verified building blocks for a media-editing platform: validators, stores,
//! planners and command-line builders whose behaviour is stated as contracts.

pub mod text;
pub mod time;
pub mod crypto;
pub mod media_graph;
pub mod media_delivery;
pub mod media_webhook;
pub mod media_retry;
pub mod media_timestamps;
pub mod media_processing;
pub mod media_timeline;
pub mod media_manifest;
pub mod media_export;
pub mod media_export_presets;
pub mod media_limits;
pub mod media_preview;
pub mod media_scenes;
pub mod media_delivery_policy;
pub mod media_editor;
pub mod media_presence;
pub mod media_progress;
pub mod media_selection_lock;
pub mod media_review;
pub mod media_quota;
pub mod media_revision;
pub mod media_retention;
pub mod media_notification_preferences;
pub mod media_project_templates;
pub mod pubsub;
pub mod queue;
pub mod query_client;
pub mod rbac;
pub mod pool;
pub mod robots;
pub mod rpc;
pub mod script;
pub mod metadata;
pub mod notifications;
pub mod pagination;
pub mod oauth;
pub mod proxy;
pub mod media_waveform;
pub mod resumable_upload;
pub mod search;
pub mod migrations;
pub mod json;
pub mod schema_validation;
pub mod privacy;
pub mod media_metadata;
pub mod media_snapshot;
pub mod media_output;
pub mod resilience;
pub mod rate_limit;
pub mod security;
pub mod middleware;
pub mod openapi;
pub mod media_editor_repository;
pub mod request;
pub mod network_endpoint;
pub mod response;
pub mod metrics_registry;
pub mod media_loudness;
pub mod router;

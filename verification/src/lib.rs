pub mod text;
pub mod shortcut;
pub mod settings;
pub mod hotkeys;
pub mod history;
pub mod agent;
pub mod hooks;
pub mod claude;
pub mod capture;
pub mod island;

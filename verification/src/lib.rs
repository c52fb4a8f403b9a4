//! Server-side adapter for single-page-application delivery: version-negotiated
//! page rendering (full HTML document or JSON page object) backed by a build
//! manifest in production and a live dev server in development.

pub mod inertia;
pub mod text;
pub mod vite;

//! Combining request handlers into one, dispatched by path prefix.
//!
//! `composite` holds the factory, which is configured with `(prefix, child
//! factory)` entries and assembles one handler per connection from what the
//! children built, and the handler, which routes each request by its path.
//! `routing` holds the matching rule and the laws about it.
pub mod composite;
pub mod routing;

//! A retained-mode declarative UI library.
//!
//! An application describes its user interface as a value made of views:
//! elements, attributes, event handlers, text, and collections of these. A
//! description is built once into a state, which holds the nodes that stand
//! for it in the backing structure, and is rebuilt into that state each time
//! the data changed. Rebuilding touches the backing structure only where the
//! new description differs from what the state shows.
//!
//! - [`float`] is the container that lends its value to a callback.
//! - [`dom`] is the backing structure: nodes, listeners and the log of the
//!   operations performed, to be carried out on a document.
//! - [`builder`] is the protocol between descriptions and states, and
//!   [`compose`] what holds when components stand side by side.
//! - [`text`], [`display`], [`el`], [`attr`], [`class`], [`style`] and
//!   [`event`] are the components that stand for one node, one attribute or
//!   one listener.
//! - [`tuple`], [`option`], [`any`] and [`collections`] put components
//!   together; [`cx`], [`local`] and [`adapt`] let a callback choose them,
//!   give them a state of their own, or hand them a part of the data.
//! - [`run`] is the event loop, one step at a time.
//! - [`laws`] states what follows for whole sequences of cycles.

pub mod adapt;
pub mod any;
pub mod attr;
pub mod builder;
pub mod class;
pub mod collections;
pub mod compose;
pub mod cx;
pub mod display;
pub mod dom;
pub mod el;
pub mod event;
pub mod float;
pub mod laws;
pub mod local;
pub mod option;
pub mod run;
pub mod style;
pub mod text;
pub mod tuple;

pub use adapt::{adapt, adapt_ref, Adapt, AdaptState, Thunk, ThunkResult};
pub use any::{any, any_other, AnyOther, AnySlot, AnyState, AnyView};
pub use builder::{BuildCx, Builder, Fragment, Mounted, RebuildCx, State, ViewMarker, Web};
pub use cx::{with, Choice, Cx, Token, With};
pub use float::{Float, PoisonError};
pub use local::{with_local, Init, Render, WithLocal, WithLocalState};
pub use option::OptionState;

//! A reverse-mode automatic-differentiation engine over exact rational tensors.
//!
//! Forward operations record backward steps on a tape; `backward` replays them
//! newest-first and accumulates gradients additively in a gradient store.
pub mod ratio;
pub mod shape;
pub mod buffer;
pub mod concat_kernel;
pub mod min_kernel;
pub mod mean_kernel;
pub mod tape;
pub mod tensor;

pub use ratio::Ratio;
pub use shape::{Axis, Shape, TensorError, TryConcatAlong};
pub use tape::{BackwardOp, GhostTensor, Gradients, Tape};
pub use tensor::{backward, ConcatAlongKernel, Cpu, HasMeanMethod, Tensor};

//! Discrete logarithms by baby-step giant-step: a generic search over any group that
//! implements `BabyGiantOps`, with two groups, the integers modulo a number under
//! multiplication and the points of the Grumpkin curve under addition.

pub mod baby_giant;
pub mod grumpkin;
pub mod modular;

pub use baby_giant::{BabyGiantOps, GroupModel};
pub use grumpkin::{
    g, grumpkin_bsgs, grumpkin_bsgs_32, grumpkin_bsgs_40, grumpkin_point, grumpkin_str_to_point,
    GrumpkinBabyGiant, Jacobian, Point, PointParseError,
};
pub use modular::{baby_step_giant_step, modular_exponentiation, ModularBabyGiant};

//! A small transformer language model: vocabulary, layers, training and text generation.
//!
//! Every layer works over a number type that implements [`scalar::Real`]; the contracts say which
//! operations of that type were applied to which numbers, and in which order.
//!
//! What holds of the model whatever the number type does is stated in [`laws`]. What follows where
//! every operation has one result is stated in [`replay`]. What follows where a number type
//! computes exactly is stated in the modules from [`exact`] on. What the functions do is stated
//! there in real numbers: [`meaning_model`] for the layers and the model, [`meaning_loss`] for the
//! loss and the draws, [`meaning_training`] and [`descent`] for a step of training.

pub mod scalar;
pub mod random;
pub mod parallel;
pub mod grid;
pub mod tensor;
pub mod reduce;
pub mod elementwise;
pub mod optim;
pub mod linear;
pub mod layer_norm;
pub mod dropout;
pub mod attention;
pub mod feed_forward;
pub mod block;
pub mod model;
pub mod vocab;
pub mod batch;
pub mod loss;
pub mod training;
pub mod generation;
pub mod params;
pub mod laws;
pub mod likeness;
pub mod agreement;
pub mod replay;
pub mod exact;
pub mod causal;
pub mod softmax;
pub mod corrections;
pub mod masks;
pub mod gradient;
pub mod tangent;
pub mod norm_tangent;
pub mod scaling;
pub mod linearity;
pub mod silent;
pub mod finite;
pub mod pairing;
pub mod heads;
pub mod slope;
pub mod slope_attention;
pub mod slope_block;
pub mod slope_model;
pub mod causal_gradient;
pub mod stepping;
pub mod drawing;
pub mod sampling;
pub mod dropping;
pub mod meaning;
pub mod meaning_attention;
pub mod meaning_model;
pub mod meaning_loss;
pub mod meaning_training;
pub mod descent;
pub mod starting;
pub mod backing;
pub mod settings;

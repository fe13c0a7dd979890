//! Reverse-mode autograd planner for a CUDA tensor backend.

pub mod activate;
pub mod adjoint;
pub mod backend;
pub mod backflow;
pub mod backward;
pub mod block;
pub mod broadcast;
pub mod compound;
pub mod conv;
pub mod convolution;
pub mod convolve;
pub mod depthwise;
pub mod device;
pub mod elements;
pub mod error;
pub mod extents;
pub mod factors;
pub mod filters;
pub mod gemm;
pub mod grad;
pub mod grouped;
pub mod host;
pub mod hostconv;
pub mod hosttask;
pub mod index;
pub mod joined;
pub mod kernels;
pub mod lane;
pub mod lanes;
pub mod launch;
pub mod laws;
pub mod ledger;
pub mod matrix;
pub mod meaning;
pub mod moves;
pub mod norm;
pub mod norms;
pub mod ops;
pub mod param;
pub mod parts;
pub mod passes;
pub mod paths;
pub mod places;
pub mod products;
pub mod profiler;
pub mod program;
pub mod reach;
pub mod recurrence;
pub mod reduce;
pub mod reductions;
pub mod refusals;
pub mod report;
pub mod rows;
pub mod rules;
pub mod running;
pub mod scan;
pub mod scatter;
pub mod shape;
pub mod slopes;
pub mod ssd;
pub mod states;
pub mod sweeps;
pub mod tape;
pub mod tensor;
pub mod threads;
pub mod totals;
pub mod unfilter;
pub mod values;
pub mod vjp;
pub mod walk;
pub mod walkable;

pub mod decode;
pub mod disasm;
pub mod disasm_model;
pub mod dotscope;
pub mod disasm_moved;

pub mod error;
pub mod md5;
pub mod intrp;
pub mod pack;
pub mod sig;
pub mod pcs;
pub mod text;
pub mod named;
pub mod cam;
pub mod ps;
pub mod cgats;
pub mod cgats_laws;
pub mod cgats_cr_laws;
pub mod cgats_edit_laws;
pub mod profile;
pub mod profile_laws;
pub mod intent_laws;
pub mod tag_types;
pub mod tag_laws;
pub mod tag_arrays;
pub mod type_sig;
pub mod virt;
pub mod lut;
pub mod lut_laws;
pub mod vcgt;
pub mod tag_data;
pub mod lut_atob;
pub mod lut_v4_write;
pub mod lut_v4_laws;
pub mod named_color;
pub mod pseq;
pub mod tag_read;
pub mod tag_read_laws;

pub mod catchr_mode;
pub mod code;
pub mod laws;
pub mod parse;
pub mod render;
pub mod scope;
pub mod section;
pub mod section_body;
pub mod section_item;
pub mod section_keyword;
pub mod syntax;
pub mod token;
pub mod utils;

pub use self::catchr_mode::CatchrMode;
pub use self::code::Code;
pub use self::parse::ParseError;
pub use self::scope::Scope;
pub use self::section::{Artifact, Section};
pub use self::section_body::SectionBody;
pub use self::section_item::SectionItem;
pub use self::section_keyword::SectionKeyword;
pub use self::token::{Delimiter, Token};
pub use self::utils::escape_name;

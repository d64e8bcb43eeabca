pub mod accounting;
pub mod codec;
pub mod cursor;
pub mod digest;
pub mod engine;
pub mod flushing;
pub mod frame;
pub mod gapclose;
pub mod hashorder;
pub mod image;
pub mod index;
pub mod indexlaws;
pub mod indexshape;
pub mod keyvalue;
pub mod layout;
pub mod linked;
pub mod logframe;
pub mod logshape;
pub mod logview;
pub mod moving;
pub mod ownership;
pub mod probing;
pub mod record;
pub mod records;
pub mod recovery;
pub mod reopen;
pub mod resize;
pub mod restore;
pub mod sectors;
pub mod sectorview;
pub mod shape;
pub mod split;
pub mod steps;
pub mod table;
pub mod transaction;
pub mod upkeep;
pub mod valuelog;
pub mod wal;

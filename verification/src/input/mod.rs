pub mod plover_hid;

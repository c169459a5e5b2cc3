pub mod crawler;
pub mod dotbootstrap;
pub mod dotfile_crawler;
pub mod dotignore;

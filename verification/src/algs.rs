pub mod hacker_news;
pub mod newest;
pub mod quality_news;

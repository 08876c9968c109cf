//! The settings a board component starts from, and a builder for them.
use vstd::prelude::*;
use crate::config::{default_config, BoardSize, GoBoardConfig};

verus! {

/// A board component: the settings it starts with.
pub struct GoBoardPlugin {
    pub initial_config: GoBoardConfig,
}

impl Default for GoBoardPlugin {
    fn default() -> (r: GoBoardPlugin)
        ensures
            r.initial_config == default_config(),
    {
        GoBoardPlugin { initial_config: GoBoardConfig::default() }
    }
}

/// Builds a `GoBoardPlugin` from the default settings.
pub struct GoBoardPluginBuilder {
    config: GoBoardConfig,
}

impl View for GoBoardPluginBuilder {
    type V = GoBoardConfig;

    closed spec fn view(&self) -> GoBoardConfig {
        self.config
    }
}

impl GoBoardPluginBuilder {
    pub fn new() -> (r: GoBoardPluginBuilder)
        ensures
            r@ == default_config(),
    {
        GoBoardPluginBuilder { config: GoBoardConfig::default() }
    }

    pub fn with_board_size(self, size: BoardSize) -> (r: GoBoardPluginBuilder)
        ensures
            r@ == (GoBoardConfig { board_size: size, ..self@ }),
    {
        let mut b = self;
        b.config.board_size = size;
        b
    }

    pub fn with_coordinates(self, show: bool) -> (r: GoBoardPluginBuilder)
        ensures
            r@ == (GoBoardConfig { show_coordinates: show, ..self@ }),
    {
        let mut b = self;
        b.config.show_coordinates = show;
        b
    }

    pub fn with_move_numbers(self, show: bool) -> (r: GoBoardPluginBuilder)
        ensures
            r@ == (GoBoardConfig { show_move_numbers: show, ..self@ }),
    {
        let mut b = self;
        b.config.show_move_numbers = show;
        b
    }

    pub fn with_captures(self, enable: bool) -> (r: GoBoardPluginBuilder)
        ensures
            r@ == (GoBoardConfig { enable_captures: enable, ..self@ }),
    {
        let mut b = self;
        b.config.enable_captures = enable;
        b
    }

    pub fn with_ko_rule(self, enable: bool) -> (r: GoBoardPluginBuilder)
        ensures
            r@ == (GoBoardConfig { enable_ko_rule: enable, ..self@ }),
    {
        let mut b = self;
        b.config.enable_ko_rule = enable;
        b
    }

    pub fn build(self) -> (r: GoBoardPlugin)
        ensures
            r.initial_config == self@,
    {
        GoBoardPlugin { initial_config: self.config }
    }
}

} // verus!

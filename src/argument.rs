//! Argument definitions: one named flag or option and what is known of it.
use vstd::prelude::*;

verus! {

/// A value given to an argument: a boolean-like text or a generic text.
#[derive(Debug)]
pub enum Value {
    Flag(String),
    Text(String),
}

/// The mathematical form of a [`Value`].
pub enum ValueView {
    Flag(Seq<char>),
    Text(Seq<char>),
}

impl View for Value {
    type V = ValueView;

    open spec fn view(&self) -> ValueView {
        match self {
            Value::Flag(s) => ValueView::Flag(s@),
            Value::Text(s) => ValueView::Text(s@),
        }
    }
}

/// The view of an optional value.
pub open spec fn opt_value_view(v: Option<Value>) -> Option<ValueView> {
    match v {
        Some(x) => Some(x@),
        None => None,
    }
}

/// The definition of one named flag or option.
#[derive(Debug)]
pub struct Argument {
    pub name: String,
    pub required: bool,
    pub help: Option<String>,
    pub takes_value: bool,
    pub default_value: Option<Value>,
    /// Set once the argument has been seen on the command line.
    pub user_value: Option<Value>,
}

/// The mathematical form of an [`Argument`].
pub struct ArgumentView {
    pub name: Seq<char>,
    pub required: bool,
    pub help: Option<Seq<char>>,
    pub takes_value: bool,
    pub default_value: Option<ValueView>,
    pub user_value: Option<ValueView>,
}

impl View for Argument {
    type V = ArgumentView;

    open spec fn view(&self) -> ArgumentView {
        ArgumentView {
            name: self.name@,
            required: self.required,
            help: match self.help {
                Some(h) => Some(h@),
                None => None,
            },
            takes_value: self.takes_value,
            default_value: opt_value_view(self.default_value),
            user_value: opt_value_view(self.user_value),
        }
    }
}

impl Argument {
    /// A definition named `name`: not required, a pure flag, with no help,
    /// no default and no value supplied yet.
    pub fn new(name: &str) -> (r: Argument)
        ensures
            r@ == (ArgumentView {
                name: name@,
                required: false,
                help: None,
                takes_value: false,
                default_value: None,
                user_value: None,
            }),
    {
        Argument {
            name: name.to_owned(),
            required: false,
            help: None,
            takes_value: false,
            default_value: None,
            user_value: None,
        }
    }

    /// The same definition, marked required or not.
    pub fn required(self, required: bool) -> (r: Self)
        ensures
            r@ == (ArgumentView { required, ..self@ }),
    {
        let mut a = self;
        a.required = required;
        a
    }

    /// The same definition, marked as taking a value or not.
    pub fn takes_value(self, takes_value: bool) -> (r: Self)
        ensures
            r@ == (ArgumentView { takes_value, ..self@ }),
    {
        let mut a = self;
        a.takes_value = takes_value;
        a
    }

    /// The same definition, with `help` as its help text.
    pub fn help(self, help: &str) -> (r: Self)
        ensures
            r@ == (ArgumentView { help: Some(help@), ..self@ }),
    {
        let mut a = self;
        a.help = Some(help.to_owned());
        a
    }
}

} // verus!

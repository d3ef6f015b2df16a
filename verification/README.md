# image-cluster

Indexes images into a table of embeddings and clusters them.

`src/` is the verified library: the names and statements of the table, the requests to the
embedding services, what is stored and loaded, sampling, and the searches for clustering
parameters. Floating point numbers are carried by their bit patterns there; the library
compares and moves them and never computes with them.

`app/` is the program around it: the command line, files, network and database, and the
floating point work.

`tests/` runs the library.
